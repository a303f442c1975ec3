use machinegen::index::{index_files, index_replacements, index_templates, ReplaceIndex};
use machinegen::string_map::StringMap;
use machinegen::types::{Files, Replace, ReplaceEntry, System, TableError, Template};
use std::path::PathBuf;

fn s(text: &str) -> String {
    text.to_string()
}

fn replace(key: &str, template: &str, mandatory: bool, unique: bool, parent: &str) -> Replace {
    Replace {
        string: s(key),
        template: s(template),
        mandatory,
        unique,
        config_parent: s(parent),
        description: format!("about {}", key),
    }
}

fn file(name: &str, parent: &str, target: &str) -> Files {
    Files {
        name: s(name),
        system: System::Guest,
        config_parent: s(parent),
        target: PathBuf::from(target),
        description: format!("file {}", name),
    }
}

fn template(name: &str) -> Template {
    Template {
        name: s(name),
        system: System::Host,
        source: PathBuf::from(format!("templates/{}.in", name)),
        target: PathBuf::from(format!("out/{}", name)),
        description: format!("template {}", name),
    }
}

#[test]
fn replacement_index_of_no_rows_is_empty() {
    let index = index_replacements(Vec::new()).unwrap();
    assert_eq!(index.by_key.len(), 0);
    assert_eq!(index.root_keys.len(), 0);
    assert_eq!(index.group_children.len(), 0);
    assert_eq!(index.template_names.len(), 0);
}

#[test]
fn replacement_index_holds_every_row_by_key() {
    let rows = vec![
        replace("hostname", "cloudinit", true, true, "root"),
        replace("dns", "netplan", false, false, "network"),
    ];
    let index = index_replacements(rows).unwrap();
    assert_eq!(index.by_key.len(), 2);
    assert_eq!(
        index.by_key.get(&s("hostname")),
        Some(&ReplaceEntry {
            template: s("cloudinit"),
            mandatory: true,
            unique: true,
            config_parent: s("root"),
            description: s("about hostname"),
        })
    );
    assert_eq!(
        index.by_key.get(&s("dns")),
        Some(&ReplaceEntry {
            template: s("netplan"),
            mandatory: false,
            unique: false,
            config_parent: s("network"),
            description: s("about dns"),
        })
    );
}

#[test]
fn replacement_index_splits_root_keys_from_group_children() {
    let rows = vec![
        replace("hostname", "cloudinit", true, true, "root"),
        replace("dns", "cloudinit", false, false, "network"),
        replace("network", "cloudinit", true, true, "root"),
        replace("gateway", "cloudinit", true, true, "network"),
        replace("size", "disk", true, true, "storage"),
    ];
    let index = index_replacements(rows).unwrap();
    assert_eq!(index.root_keys.len(), 2);
    assert_eq!(index.root_keys.nth(0), "hostname");
    assert_eq!(index.root_keys.nth(1), "network");
    assert_eq!(index.group_children.len(), 2);
    assert_eq!(index.group_children.key_at(0), "network");
    assert_eq!(index.group_children.key_at(1), "storage");
    let network = index.group_children.get(&s("network")).unwrap();
    assert_eq!(network.len(), 2);
    assert_eq!(network.nth(0), "dns");
    assert_eq!(network.nth(1), "gateway");
    let storage = index.group_children.get(&s("storage")).unwrap();
    assert_eq!(storage.len(), 1);
    assert_eq!(storage.nth(0), "size");
    assert!(!index.group_children.contains_key(&s("root")));
}

#[test]
fn replacement_index_names_each_template_once() {
    let rows = vec![
        replace("a", "cloudinit", true, true, "root"),
        replace("b", "netplan", true, true, "root"),
        replace("c", "cloudinit", true, true, "root"),
    ];
    let index = index_replacements(rows).unwrap();
    assert_eq!(index.template_names.len(), 2);
    assert_eq!(index.template_names.nth(0), "cloudinit");
    assert_eq!(index.template_names.nth(1), "netplan");
}

#[test]
fn replacement_index_rejects_the_first_repeated_key() {
    let rows = vec![
        replace("a", "t", true, true, "root"),
        replace("b", "t", true, true, "root"),
        replace("b", "t", false, false, "other"),
        replace("a", "t", true, true, "root"),
    ];
    match index_replacements(rows) {
        Err(TableError::DuplicateKey(key)) => assert_eq!(key, "b"),
        other => panic!("unexpected outcome: {:?}", other),
    }
}

#[test]
fn add_member_puts_root_members_apart_from_groups() {
    let mut index = ReplaceIndex::new();
    index.add_member(&s("root"), s("hostname"));
    index.add_member(&s("net"), s("dns"));
    index.add_member(&s("net"), s("dns"));
    assert_eq!(index.root_keys.len(), 1);
    assert!(index.root_keys.contains(&s("hostname")));
    assert_eq!(index.group_children.len(), 1);
    assert_eq!(index.group_children.get(&s("net")).unwrap().len(), 1);
    assert_eq!(index.by_key.len(), 0);
    assert_eq!(index.template_names.len(), 0);
}

#[test]
fn file_index_holds_every_row_by_name_and_by_parent() {
    let mut index = index_replacements(vec![replace("ssh", "t", true, true, "root")]).unwrap();
    let rows = vec![
        file("authorized_keys", "ssh", "/home/user/.ssh/authorized_keys"),
        file("motd", "root", "/etc/motd"),
        file("known_hosts", "ssh", "/home/user/.ssh/known_hosts"),
    ];
    let files = index_files(rows, &mut index).unwrap();
    assert_eq!(files.by_name.len(), 3);
    let entry = files.by_name.get(&s("motd")).unwrap();
    assert_eq!(entry.system, System::Guest);
    assert_eq!(entry.target, PathBuf::from("/etc/motd"));
    assert_eq!(entry.description, "file motd");
    assert_eq!(files.files_by_group.len(), 2);
    assert_eq!(files.files_by_group.key_at(0), "ssh");
    assert_eq!(files.files_by_group.key_at(1), "root");
    let ssh = files.files_by_group.get(&s("ssh")).unwrap();
    assert_eq!(ssh.len(), 2);
    assert_eq!(ssh.nth(0), "authorized_keys");
    assert_eq!(ssh.nth(1), "known_hosts");
    let root = files.files_by_group.get(&s("root")).unwrap();
    assert_eq!(root.len(), 1);
    assert_eq!(root.nth(0), "motd");
}

#[test]
fn file_index_marks_each_parent_with_the_reserved_member() {
    let mut index = index_replacements(vec![
        replace("ssh", "t", true, true, "root"),
        replace("listen", "t", true, true, "ssh"),
    ])
    .unwrap();
    let rows = vec![
        file("authorized_keys", "ssh", "/a"),
        file("known_hosts", "ssh", "/b"),
        file("motd", "root", "/c"),
        file("units", "systemd", "/d"),
    ];
    index_files(rows, &mut index).unwrap();
    assert_eq!(index.root_keys.len(), 2);
    assert_eq!(index.root_keys.nth(0), "ssh");
    assert_eq!(index.root_keys.nth(1), "files");
    assert_eq!(index.group_children.len(), 2);
    let ssh = index.group_children.get(&s("ssh")).unwrap();
    assert_eq!(ssh.len(), 2);
    assert_eq!(ssh.nth(0), "listen");
    assert_eq!(ssh.nth(1), "files");
    let systemd = index.group_children.get(&s("systemd")).unwrap();
    assert_eq!(systemd.len(), 1);
    assert_eq!(systemd.nth(0), "files");
    assert_eq!(index.by_key.len(), 2);
}

#[test]
fn file_index_rejects_a_repeated_name_and_leaves_the_grouping_alone() {
    let mut index = index_replacements(vec![replace("ssh", "t", true, true, "root")]).unwrap();
    let rows = vec![
        file("motd", "root", "/etc/motd"),
        file("keys", "ssh", "/a"),
        file("motd", "ssh", "/b"),
    ];
    match index_files(rows, &mut index) {
        Err(TableError::DuplicateKey(name)) => assert_eq!(name, "motd"),
        other => panic!("unexpected outcome: {:?}", other),
    }
    assert_eq!(index.root_keys.len(), 1);
    assert!(!index.root_keys.contains(&s("files")));
    assert_eq!(index.group_children.len(), 0);
}

#[test]
fn template_index_joins_each_template_with_its_replacements() {
    let index = index_replacements(vec![
        replace("hostname", "cloudinit", true, true, "root"),
        replace("dns", "netplan", false, false, "root"),
        replace("user", "cloudinit", true, false, "root"),
    ])
    .unwrap();
    let templates = index_templates(
        vec![template("cloudinit"), template("netplan"), template("unused")],
        &index.by_key,
    )
    .unwrap();
    assert_eq!(templates.len(), 3);
    let cloudinit = templates.get(&s("cloudinit")).unwrap();
    assert_eq!(cloudinit.system, System::Host);
    assert_eq!(cloudinit.source, PathBuf::from("templates/cloudinit.in"));
    assert_eq!(cloudinit.target, PathBuf::from("out/cloudinit"));
    assert_eq!(cloudinit.description, "template cloudinit");
    assert_eq!(cloudinit.replacements.len(), 2);
    assert_eq!(
        cloudinit.replacements.get(&s("hostname")),
        index.by_key.get(&s("hostname"))
    );
    assert_eq!(cloudinit.replacements.get(&s("user")), index.by_key.get(&s("user")));
    assert!(!cloudinit.replacements.contains_key(&s("dns")));
    let netplan = templates.get(&s("netplan")).unwrap();
    assert_eq!(netplan.replacements.len(), 1);
    assert!(netplan.replacements.contains_key(&s("dns")));
    assert_eq!(templates.get(&s("unused")).unwrap().replacements.len(), 0);
}

#[test]
fn template_index_rejects_the_first_repeated_name() {
    let by_key: StringMap<ReplaceEntry> = StringMap::new();
    let rows = vec![template("a"), template("b"), template("a"), template("b")];
    match index_templates(rows, &by_key) {
        Err(TableError::DuplicateKey(name)) => assert_eq!(name, "a"),
        other => panic!("unexpected outcome: {:?}", other.map(|t| t.len())),
    }
}
