use machinegen::compile::{files_rows, process_relations, replace_rows, template_rows};
use machinegen::string_map::StringMap;
use machinegen::types::{
    ConfigEntry, ConfigPrimitives, Files, MachineData, Records, Replace, System, TableError,
    Template,
};
use std::path::PathBuf;

fn s(text: &str) -> String {
    text.to_string()
}

fn replace(key: &str, parent: &str, unique: bool, template: &str) -> Replace {
    Replace {
        string: s(key),
        template: s(template),
        mandatory: false,
        unique,
        config_parent: s(parent),
        description: format!("about {}", key),
    }
}

fn file(name: &str, parent: &str, target: &str) -> Files {
    Files {
        name: s(name),
        system: System::Guest,
        config_parent: s(parent),
        target: PathBuf::from(target),
        description: format!("file {}", name),
    }
}

fn template(name: &str) -> Template {
    Template {
        name: s(name),
        system: System::Guest,
        source: PathBuf::from(format!("templates/{}", name)),
        target: PathBuf::from(format!("/etc/{}", name)),
        description: format!("template {}", name),
    }
}

fn failure(result: Result<MachineData, TableError>) -> TableError {
    match result {
        Err(error) => error,
        Ok(data) => panic!("the tables compiled: {:?}", data),
    }
}

fn leaf(node: &ConfigEntry) -> (ConfigPrimitives, bool, bool, String) {
    match node {
        ConfigEntry::Leaf { value, mandatory, unique, description } => {
            (*value, *mandatory, *unique, description.clone())
        }
        other => panic!("not a leaf: {:?}", other),
    }
}

fn children(node: &ConfigEntry) -> &StringMap<ConfigEntry> {
    match node {
        ConfigEntry::Group { children, .. } => children,
        other => panic!("not a group: {:?}", other),
    }
}

fn names(map: &StringMap<ConfigEntry>) -> Vec<String> {
    let mut all = Vec::new();
    for i in 0..map.len() {
        all.push(map.key_at(i).clone());
    }
    all.sort();
    all
}

#[test]
fn empty_tables_compile_to_an_empty_description() {
    let data = process_relations(Vec::new(), Vec::new(), Vec::new()).unwrap();
    assert_eq!(data.config_keys.len(), 0);
    assert_eq!(data.templates.len(), 0);
    assert_eq!(data.files.len(), 0);
}

#[test]
fn a_parent_absent_from_the_replacement_table_is_an_orphan() {
    let rows = vec![replace("address", "net", true, "cloudinit")];
    match failure(process_relations(rows, Vec::new(), vec![template("cloudinit")])) {
        TableError::OrphanConfigKey(name) => assert_eq!(name, "net"),
        other => panic!("unexpected failure: {:?}", other),
    }
}

#[test]
fn a_parent_referred_to_but_not_declared_fails_with_its_name() {
    let rows = vec![
        replace("hostname", "root", true, "cloudinit"),
        replace("dns", "network", false, "cloudinit"),
    ];
    match failure(process_relations(rows, Vec::new(), vec![template("cloudinit")])) {
        TableError::OrphanConfigKey(name) => assert_eq!(name, "network"),
        other => panic!("unexpected failure: {:?}", other),
    }
}

#[test]
fn an_orphan_parent_fails_whatever_the_template_table_holds() {
    let rows = vec![
        replace("hostname", "root", true, "cloudinit"),
        replace("dns", "network", false, "cloudinit"),
    ];
    match failure(process_relations(rows, Vec::new(), Vec::new())) {
        TableError::OrphanConfigKey(name) => assert_eq!(name, "network"),
        other => panic!("unexpected failure: {:?}", other),
    }
}

#[test]
fn a_declared_parent_becomes_a_group_and_no_leaf() {
    let rows = vec![
        replace("hostname", "root", true, "cloudinit"),
        replace("dns", "network", false, "cloudinit"),
        replace("network", "root", true, "cloudinit"),
    ];
    let data = process_relations(rows, Vec::new(), vec![template("cloudinit")]).unwrap();
    assert_eq!(names(&data.config_keys), vec![s("hostname"), s("network")]);
    let (value, mandatory, unique, description) = leaf(data.config_keys.get(&s("hostname")).unwrap());
    assert_eq!(value, ConfigPrimitives::Scalar);
    assert!(!mandatory);
    assert!(unique);
    assert_eq!(description, "about hostname");
    let network = data.config_keys.get(&s("network")).unwrap();
    assert!(matches!(network, ConfigEntry::Group { .. }));
    let inside = children(network);
    assert_eq!(names(inside), vec![s("dns")]);
    let (value, _, unique, _) = leaf(inside.get(&s("dns")).unwrap());
    assert_eq!(value, ConfigPrimitives::Array);
    assert!(!unique);
}

#[test]
fn a_file_of_the_root_stands_in_the_top_level_group_of_files() {
    let rows = vec![file("authorized_keys", "root", "/home/user/.ssh/authorized_keys")];
    let data = process_relations(Vec::new(), rows, Vec::new()).unwrap();
    assert_eq!(names(&data.config_keys), vec![s("files")]);
    let group = data.config_keys.get(&s("files")).unwrap();
    match group {
        ConfigEntry::Group { description, mandatory, unique, .. } => {
            assert_eq!(
                description,
                "Set of file paths to be copied from according to the machine data specs."
            );
            assert!(*mandatory);
            assert!(*unique);
        }
        other => panic!("not a group: {:?}", other),
    }
    let inside = children(group);
    assert_eq!(names(inside), vec![s("authorized_keys")]);
    let (value, mandatory, unique, description) = leaf(inside.get(&s("authorized_keys")).unwrap());
    assert_eq!(value, ConfigPrimitives::Scalar);
    assert!(mandatory);
    assert!(unique);
    assert_eq!(description, "file authorized_keys");
    let entry = data.files.get(&s("authorized_keys")).unwrap();
    assert_eq!(entry.target, PathBuf::from("/home/user/.ssh/authorized_keys"));
    assert_eq!(entry.system, System::Guest);
}

#[test]
fn a_unique_row_gives_a_scalar_leaf_and_any_other_an_array() {
    let rows = vec![
        replace("one", "root", true, "t"),
        replace("many", "root", false, "t"),
        replace("box", "root", true, "t"),
        replace("inner_one", "box", true, "t"),
        replace("inner_many", "box", false, "t"),
    ];
    let data = process_relations(rows, Vec::new(), vec![template("t")]).unwrap();
    let tree = &data.config_keys;
    assert_eq!(leaf(tree.get(&s("one")).unwrap()).0, ConfigPrimitives::Scalar);
    assert_eq!(leaf(tree.get(&s("many")).unwrap()).0, ConfigPrimitives::Array);
    let inside = children(tree.get(&s("box")).unwrap());
    assert_eq!(leaf(inside.get(&s("inner_one")).unwrap()).0, ConfigPrimitives::Scalar);
    assert_eq!(leaf(inside.get(&s("inner_many")).unwrap()).0, ConfigPrimitives::Array);
}

#[test]
fn a_leaf_carries_the_flags_and_the_description_of_its_row() {
    let mut row = replace("token", "root", false, "t");
    row.mandatory = true;
    row.description = s("an access token");
    let data = process_relations(vec![row], Vec::new(), vec![template("t")]).unwrap();
    assert_eq!(
        leaf(data.config_keys.get(&s("token")).unwrap()),
        (ConfigPrimitives::Array, true, false, s("an access token"))
    );
}

#[test]
fn each_template_owns_exactly_the_replacements_that_name_it() {
    let rows = vec![
        replace("hostname", "root", true, "cloudinit"),
        replace("dns", "root", false, "netplan"),
        replace("user", "root", true, "cloudinit"),
    ];
    let templates = vec![template("cloudinit"), template("netplan"), template("grub")];
    let data = process_relations(rows, Vec::new(), templates).unwrap();
    assert_eq!(data.templates.len(), 3);
    let cloudinit = data.templates.get(&s("cloudinit")).unwrap();
    assert_eq!(cloudinit.replacements.len(), 2);
    let hostname = cloudinit.replacements.get(&s("hostname")).unwrap();
    assert_eq!(hostname.template, "cloudinit");
    assert_eq!(hostname.config_parent, "root");
    assert!(hostname.unique);
    assert_eq!(hostname.description, "about hostname");
    assert!(cloudinit.replacements.contains_key(&s("user")));
    let netplan = data.templates.get(&s("netplan")).unwrap();
    assert_eq!(netplan.replacements.len(), 1);
    assert!(netplan.replacements.contains_key(&s("dns")));
    let grub = data.templates.get(&s("grub")).unwrap();
    assert_eq!(grub.replacements.len(), 0);
    assert_eq!(grub.source, PathBuf::from("templates/grub"));
    assert_eq!(grub.target, PathBuf::from("/etc/grub"));
    assert_eq!(grub.description, "template grub");
}

#[test]
fn the_files_of_a_group_stand_in_its_group_of_files() {
    let replacements = vec![
        replace("ssh", "root", true, "t"),
        replace("listen", "ssh", true, "t"),
    ];
    let files = vec![
        file("authorized_keys", "ssh", "/a"),
        file("motd", "root", "/b"),
        file("known_hosts", "ssh", "/c"),
    ];
    let data = process_relations(replacements, files, vec![template("t")]).unwrap();
    assert_eq!(names(&data.config_keys), vec![s("files"), s("ssh")]);
    let ssh = children(data.config_keys.get(&s("ssh")).unwrap());
    assert_eq!(names(ssh), vec![s("files"), s("listen")]);
    let ssh_files = children(ssh.get(&s("files")).unwrap());
    assert_eq!(names(ssh_files), vec![s("authorized_keys"), s("known_hosts")]);
    assert_eq!(
        leaf(ssh_files.get(&s("known_hosts")).unwrap()),
        (ConfigPrimitives::Scalar, true, true, s("file known_hosts"))
    );
    let root_files = children(data.config_keys.get(&s("files")).unwrap());
    assert_eq!(names(root_files), vec![s("motd")]);
    assert_eq!(data.files.len(), 3);
}

#[test]
fn a_group_may_hold_files_only() {
    let replacements = vec![replace("ssh", "root", true, "t")];
    let files = vec![file("authorized_keys", "ssh", "/a")];
    let data = process_relations(replacements, files, vec![template("t")]).unwrap();
    let ssh = children(data.config_keys.get(&s("ssh")).unwrap());
    assert_eq!(names(ssh), vec![s("files")]);
    assert_eq!(names(children(ssh.get(&s("files")).unwrap())), vec![s("authorized_keys")]);
}

#[test]
fn a_file_whose_parent_is_no_replacement_key_is_an_orphan() {
    let files = vec![file("authorized_keys", "ssh", "/a")];
    match failure(process_relations(Vec::new(), files, Vec::new())) {
        TableError::OrphanConfigKey(name) => assert_eq!(name, "ssh"),
        other => panic!("unexpected failure: {:?}", other),
    }
}

#[test]
fn a_group_inside_a_group_is_a_leaf_there_and_a_group_at_the_top() {
    let rows = vec![
        replace("infra", "root", true, "t"),
        replace("network", "infra", true, "t"),
        replace("dns", "network", false, "t"),
    ];
    let data = process_relations(rows, Vec::new(), vec![template("t")]).unwrap();
    assert_eq!(names(&data.config_keys), vec![s("infra"), s("network")]);
    let infra = children(data.config_keys.get(&s("infra")).unwrap());
    assert_eq!(leaf(infra.get(&s("network")).unwrap()).0, ConfigPrimitives::Scalar);
    let network = children(data.config_keys.get(&s("network")).unwrap());
    assert_eq!(leaf(network.get(&s("dns")).unwrap()).0, ConfigPrimitives::Array);
}

#[test]
fn every_node_is_a_group_or_a_leaf_down_to_the_third_level() {
    let replacements = vec![
        replace("hostname", "root", true, "t"),
        replace("ssh", "root", true, "t"),
        replace("listen", "ssh", true, "t"),
    ];
    let files = vec![file("keys", "ssh", "/a"), file("motd", "root", "/b")];
    let data = process_relations(replacements, files, vec![template("t")]).unwrap();
    let mut leaves = 0;
    let mut groups = 0;
    for i in 0..data.config_keys.len() {
        match data.config_keys.value_at(i) {
            ConfigEntry::Leaf { .. } => leaves += 1,
            ConfigEntry::Group { children, .. } => {
                groups += 1;
                for j in 0..children.len() {
                    match children.value_at(j) {
                        ConfigEntry::Leaf { .. } => leaves += 1,
                        ConfigEntry::Group { children, .. } => {
                            groups += 1;
                            for k in 0..children.len() {
                                assert!(matches!(children.value_at(k), ConfigEntry::Leaf { .. }));
                                leaves += 1;
                            }
                        }
                    }
                }
            }
        }
    }
    assert_eq!(groups, 3);
    assert_eq!(leaves, 4);
}

#[test]
fn compiling_twice_gives_the_same_description() {
    let tables = || {
        (
            vec![
                replace("hostname", "root", true, "cloudinit"),
                replace("network", "root", true, "cloudinit"),
                replace("dns", "network", false, "netplan"),
            ],
            vec![file("motd", "root", "/etc/motd"), file("hosts", "network", "/etc/hosts")],
            vec![template("cloudinit"), template("netplan")],
        )
    };
    let (r, f, t) = tables();
    let first = process_relations(r, f, t).unwrap();
    let (r, f, t) = tables();
    let second = process_relations(r, f, t).unwrap();
    assert_eq!(format!("{:?}", first), format!("{:?}", second));
}

#[test]
fn the_order_of_the_rows_does_not_change_what_the_tree_holds() {
    let forward = process_relations(
        vec![
            replace("hostname", "root", true, "t"),
            replace("network", "root", true, "t"),
            replace("dns", "network", false, "t"),
            replace("gateway", "network", true, "t"),
        ],
        vec![file("motd", "root", "/etc/motd"), file("hosts", "network", "/etc/hosts")],
        vec![template("t")],
    )
    .unwrap();
    let backward = process_relations(
        vec![
            replace("gateway", "network", true, "t"),
            replace("dns", "network", false, "t"),
            replace("network", "root", true, "t"),
            replace("hostname", "root", true, "t"),
        ],
        vec![file("hosts", "network", "/etc/hosts"), file("motd", "root", "/etc/motd")],
        vec![template("t")],
    )
    .unwrap();
    assert_eq!(names(&forward.config_keys), names(&backward.config_keys));
    for name in names(&forward.config_keys) {
        let a = forward.config_keys.get(&name).unwrap();
        let b = backward.config_keys.get(&name).unwrap();
        match (a, b) {
            (ConfigEntry::Leaf { .. }, ConfigEntry::Leaf { .. }) => assert_eq!(leaf(a), leaf(b)),
            (ConfigEntry::Group { .. }, ConfigEntry::Group { .. }) => {
                assert_eq!(names(children(a)), names(children(b)));
            }
            _ => panic!("{} is a group in one tree and a leaf in the other", name),
        }
    }
}

#[test]
fn a_repeated_replacement_key_is_a_duplicate() {
    let rows = vec![
        replace("hostname", "root", true, "t"),
        replace("hostname", "root", false, "t"),
    ];
    match failure(process_relations(rows, Vec::new(), vec![template("t")])) {
        TableError::DuplicateKey(key) => assert_eq!(key, "hostname"),
        other => panic!("unexpected failure: {:?}", other),
    }
}

#[test]
fn a_repeated_file_name_is_a_duplicate() {
    let files = vec![file("motd", "root", "/a"), file("motd", "root", "/b")];
    match failure(process_relations(Vec::new(), files, Vec::new())) {
        TableError::DuplicateKey(key) => assert_eq!(key, "motd"),
        other => panic!("unexpected failure: {:?}", other),
    }
}

#[test]
fn a_repeated_template_name_is_a_duplicate() {
    let templates = vec![template("cloudinit"), template("cloudinit")];
    match failure(process_relations(Vec::new(), Vec::new(), templates)) {
        TableError::DuplicateKey(key) => assert_eq!(key, "cloudinit"),
        other => panic!("unexpected failure: {:?}", other),
    }
}

#[test]
fn a_duplicate_is_named_before_an_orphan() {
    let rows = vec![
        replace("dns", "network", true, "t"),
        replace("dns", "network", true, "t"),
    ];
    match failure(process_relations(rows, Vec::new(), vec![template("t")])) {
        TableError::DuplicateKey(key) => assert_eq!(key, "dns"),
        other => panic!("unexpected failure: {:?}", other),
    }
}

#[test]
fn a_replacement_named_files_collides_with_the_reserved_name() {
    let rows = vec![replace("files", "root", true, "t")];
    match failure(process_relations(rows, Vec::new(), vec![template("t")])) {
        TableError::ReservedKeyCollision(key) => assert_eq!(key, "files"),
        other => panic!("unexpected failure: {:?}", other),
    }
}

#[test]
fn a_template_absent_from_the_template_table_is_unknown() {
    let rows = vec![
        replace("hostname", "root", true, "cloudinit"),
        replace("dns", "root", true, "netplan"),
    ];
    match failure(process_relations(rows, Vec::new(), vec![template("cloudinit")])) {
        TableError::UnknownTemplateReference(name) => assert_eq!(name, "netplan"),
        other => panic!("unexpected failure: {:?}", other),
    }
}

#[test]
fn records_of_the_right_table_become_its_rows() {
    let rows = replace_rows(vec![
        Records::Replace(replace("a", "root", true, "t")),
        Records::Replace(replace("b", "root", true, "t")),
    ])
    .unwrap();
    assert_eq!(rows.len(), 2);
    assert_eq!(rows[0].string, "a");
    assert_eq!(rows[1].string, "b");
    let rows = files_rows(vec![Records::Files(file("motd", "root", "/etc/motd"))]).unwrap();
    assert_eq!(rows.len(), 1);
    assert_eq!(rows[0].name, "motd");
    let rows = template_rows(vec![Records::Template(template("grub"))]).unwrap();
    assert_eq!(rows.len(), 1);
    assert_eq!(rows[0].name, "grub");
}

#[test]
fn a_record_of_another_table_is_a_parsing_failure() {
    let records = vec![
        Records::Replace(replace("a", "root", true, "t")),
        Records::Files(file("motd", "root", "/etc/motd")),
        Records::Template(template("grub")),
    ];
    match replace_rows(records) {
        Err(TableError::Parsing(error)) => {
            assert_eq!(
                error.message,
                "Error reading Replace table. It appears to be mislabeled as such. Aborting."
            );
            assert_eq!(error.cause, "files");
        }
        other => panic!("unexpected outcome: {:?}", other),
    }
    match files_rows(vec![Records::Template(template("grub"))]) {
        Err(TableError::Parsing(error)) => {
            assert_eq!(
                error.message,
                "Error reading Files table. It appears to be mislabeled as such. Aborting."
            );
            assert_eq!(error.cause, "templates");
        }
        other => panic!("unexpected outcome: {:?}", other),
    }
    match template_rows(vec![Records::Replace(replace("a", "root", true, "t"))]) {
        Err(TableError::Parsing(error)) => {
            assert_eq!(
                error.message,
                "Error reading Templates table. It appears to be mislabeled as such. Aborting."
            );
            assert_eq!(error.cause, "replace");
        }
        other => panic!("unexpected outcome: {:?}", other),
    }
}
