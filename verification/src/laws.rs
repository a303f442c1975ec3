//! What holds of every compilation, proved from the definitions that the
//! contracts are stated in.
use crate::compile::{compile_failure, compiles_to, grouping_of, schema_of};
use crate::model::{
    add_groups, distinct, file_names, file_pairs, file_parents, files_failure, files_index_of,
    files_name, first_duplicate, first_index, first_missing, first_some, lemma_add_groups,
    lemma_distinct,
    lemma_first_some_at, lemma_first_some_found, lemma_members_of, lemma_no_duplicate,
    lemma_with_member, members_in, members_of, missing, repeats, replace_entry, replace_failure,
    replace_index_of, replace_keys, replace_pairs, replace_parents, replace_templates, root_name,
    template_names, templates_failure, with_member,
};
use crate::tree::{
    files_group, group_node, known_members, lemma_none_missing, member_node, missing_file_groups,
    orphan_files, orphan_members, places,
};
use crate::types::{
    ConfigEntryView, ConfigPrimitives, FilesView, MachineData, ReplaceView, TableError,
    TableErrorView, TemplateView,
};
use vstd::prelude::*;

verus! {

/// What the grouping of two tables holds. Its groups are the parents of
/// the rows, but the root. A parent holds the keys of the replacement rows
/// that name it and, where a file row names it, the reserved member.
pub proof fn lemma_grouping(replacements: Seq<ReplaceView>, files: Seq<FilesView>)
    ensures
        forall|g: Seq<char>|
            #![trigger grouping_of(replacements, files).groups.contains(g)]
            #![trigger replace_parents(replacements).contains(g)]
            #![trigger file_parents(files).contains(g)]
            grouping_of(replacements, files).groups.contains(g) <==> g != root_name() && (
            replace_parents(replacements).contains(g) || file_parents(files).contains(g)),
        forall|p: Seq<char>, m: Seq<char>|
            #![trigger grouping_of(replacements, files).members(p).contains(m)]
            grouping_of(replacements, files).members(p).contains(m) <==> replace_pairs(
                replacements,
            ).contains((p, m)) || (m == files_name() && file_parents(files).contains(p)),
{
    let rs = replacements;
    let grouping = grouping_of(rs, files);
    let plain = replace_index_of(rs);
    let marked = distinct(file_parents(files));
    let none = Seq::<Seq<char>>::empty();
    lemma_distinct(file_parents(files));
    lemma_add_groups(none, replace_parents(rs));
    lemma_add_groups(plain.groups, marked);
    assert(plain.groups == add_groups(none, replace_parents(rs)));
    assert(grouping.groups == add_groups(plain.groups, marked));
    assert forall|g: Seq<char>|
        grouping.groups.contains(g) <==> g != root_name() && (replace_parents(rs).contains(g)
            || file_parents(files).contains(g)) by {
        assert(!none.contains(g));
        assert(marked.contains(g) <==> file_parents(files).contains(g));
    }
    assert forall|p: Seq<char>, m: Seq<char>|
        grouping.members(p).contains(m) <==> replace_pairs(rs).contains((p, m)) || (m
            == files_name() && file_parents(files).contains(p)) by {
        lemma_members_of(replace_pairs(rs), p);
        let declared = members_of(replace_pairs(rs), p);
        lemma_with_member(declared, files_name());
        lemma_with_member(none, files_name());
        assert(!none.contains(m));
        assert(marked.contains(p) <==> file_parents(files).contains(p));
        assert(declared.contains(m) <==> replace_pairs(rs).contains((p, m)));
        if replace_pairs(rs).contains((p, m)) {
            let i = choose|i: int|
                0 <= i < replace_pairs(rs).len() && replace_pairs(rs)[i] == (p, m);
            assert(replace_parents(rs)[i] == p);
        }
        if p == root_name() {
            assert(grouping.members(p) == grouping.root_keys);
            assert(plain.root_keys == declared);
            assert(grouping.root_keys == if marked.contains(p) {
                with_member(declared, files_name())
            } else {
                declared
            });
        } else {
            let held = members_in(plain.children, p);
            assert(held == if plain.groups.contains(p) {
                declared
            } else {
                none
            });
            if !plain.groups.contains(p) {
                assert(!replace_parents(rs).contains(p));
                assert(!replace_pairs(rs).contains((p, m)));
            }
            assert(held.contains(m) <==> replace_pairs(rs).contains((p, m)));
            lemma_with_member(held, files_name());
            assert(grouping.members(p) == members_in(grouping.children, p));
            if grouping.groups.contains(p) {
                assert(grouping.children.contains_key(p));
                assert(grouping.children[p] == if marked.contains(p) {
                    with_member(held, files_name())
                } else {
                    held
                });
            } else {
                assert(!grouping.children.contains_key(p));
                assert(grouping.members(p) == none);
            }
        }
    }
}

/// The names of the top level are the groups, the keys whose parent is the
/// root and, where a file row names the root, the reserved name.
pub proof fn law_top_level(
    replacements: Seq<ReplaceView>,
    files: Seq<FilesView>,
    templates: Seq<TemplateView>,
)
    ensures
        forall|n: Seq<char>|
            schema_of(replacements, files, templates).config_keys.contains_key(n) <==> {
                ||| n != root_name() && (replace_parents(replacements).contains(n)
                    || file_parents(files).contains(n))
                ||| replace_pairs(replacements).contains((root_name(), n))
                ||| n == files_name() && file_parents(files).contains(root_name())
            },
{
    let grouping = grouping_of(replacements, files);
    lemma_grouping(replacements, files);
    assert forall|n: Seq<char>|
        grouping.root_keys.contains(n) <==> replace_pairs(replacements).contains((root_name(), n))
            || (n == files_name() && file_parents(files).contains(root_name())) by {
        assert(grouping.members(root_name()) == grouping.root_keys);
    }
}

/// Every parent but the root is a group of the top level, whose children
/// are the keys of the replacement rows that name it and, where a file row
/// names it, the reserved name.
pub proof fn law_group_children(
    replacements: Seq<ReplaceView>,
    files: Seq<FilesView>,
    templates: Seq<TemplateView>,
    group: Seq<char>,
)
    requires
        group != root_name(),
        replace_parents(replacements).contains(group) || file_parents(files).contains(group),
    ensures
        schema_of(replacements, files, templates).config_keys.contains_key(group),
        schema_of(replacements, files, templates).config_keys[group] is Group,
        forall|m: Seq<char>|
            schema_of(replacements, files, templates).config_keys[group]->Group_children.contains_key(
                m,
            ) <==> replace_pairs(replacements).contains((group, m)) || (m == files_name()
                && file_parents(files).contains(group)),
{
    lemma_grouping(replacements, files);
    assert(grouping_of(replacements, files).groups.contains(group));
}

/// Each replacement row has its leaf in the tree: under its key in the
/// group of its parent, or at the top level where its parent is the root
/// and its key is no group. The leaf holds one value where the row is
/// unique, else a list.
pub proof fn law_replacement_leaf(
    replacements: Seq<ReplaceView>,
    files: Seq<FilesView>,
    templates: Seq<TemplateView>,
    i: int,
)
    requires
        compile_failure(replacements, files, templates) is None,
        0 <= i < replacements.len(),
    ensures
        ({
            let tree = schema_of(replacements, files, templates).config_keys;
            let row = replacements[i];
            let leaf = ConfigEntryView::Leaf {
                value: if row.unique {
                    ConfigPrimitives::Scalar
                } else {
                    ConfigPrimitives::Array
                },
                mandatory: row.mandatory,
                unique: row.unique,
                description: row.description,
            };
            &&& row.config_parent != root_name() ==> {
                &&& tree.contains_key(row.config_parent)
                &&& tree[row.config_parent] is Group
                &&& tree[row.config_parent]->Group_children.contains_key(row.string)
                &&& tree[row.config_parent]->Group_children[row.string] == leaf
            }
            &&& row.config_parent == root_name() && !replace_parents(replacements).contains(
                row.string,
            ) && !file_parents(files).contains(row.string) ==> {
                &&& tree.contains_key(row.string)
                &&& tree[row.string] == leaf
            }
        }),
{
    let rs = replacements;
    let row = rs[i];
    lemma_grouping(rs, files);
    lemma_no_duplicate(replace_keys(rs));
    assert(replace_keys(rs)[i] == row.string);
    assert(replace_pairs(rs)[i] == (row.config_parent, row.string));
    assert(replace_parents(rs)[i] == row.config_parent);
    assert(replace_keys(rs).contains(row.string));
    assert(replace_pairs(rs).contains((row.config_parent, row.string)));
    assert(replace_parents(rs).contains(row.config_parent));
    assert(grouping_of(rs, files).by_key.contains_key(row.string));
    assert(grouping_of(rs, files).members(row.config_parent).contains(row.string));
}

/// Each template owns exactly the replacements that name it: a key is
/// among them if and only if a replacement row has that key and names the
/// template, and it then stands for what that row says.
pub proof fn law_template_replacements(
    replacements: Seq<ReplaceView>,
    files: Seq<FilesView>,
    templates: Seq<TemplateView>,
    j: int,
)
    requires
        compile_failure(replacements, files, templates) is None,
        0 <= j < templates.len(),
    ensures
        ({
            let entries = schema_of(replacements, files, templates).templates;
            let name = templates[j].name;
            &&& entries.contains_key(name)
            &&& entries[name].system == templates[j].system
            &&& entries[name].source == templates[j].source
            &&& entries[name].target == templates[j].target
            &&& entries[name].description == templates[j].description
            &&& forall|k: Seq<char>|
                entries[name].replacements.contains_key(k) <==> exists|i: int|
                    0 <= i < replacements.len() && (#[trigger] replacements[i]).string == k
                        && replacements[i].template == name
            &&& forall|i: int|
                0 <= i < replacements.len() && (#[trigger] replacements[i]).template == name
                    ==> entries[name].replacements.contains_key(replacements[i].string)
                    && entries[name].replacements[replacements[i].string] == replace_entry(
                    replacements[i],
                )
        }),
{
    let rs = replacements;
    let keys = replace_keys(rs);
    let names = template_names(templates);
    let name = templates[j].name;
    let owned = schema_of(rs, files, templates).templates[name].replacements;
    lemma_no_duplicate(keys);
    lemma_no_duplicate(names);
    assert(names[j] == name);
    assert(names.contains(name));
    assert forall|i: int| 0 <= i < rs.len() && (#[trigger] rs[i]).template == name implies owned.contains_key(
        rs[i].string,
    ) && owned[rs[i].string] == replace_entry(rs[i]) by {
        assert(keys[i] == rs[i].string);
        assert(keys.contains(rs[i].string));
    }
    assert forall|k: Seq<char>| owned.contains_key(k) implies exists|i: int|
        0 <= i < rs.len() && (#[trigger] rs[i]).string == k && rs[i].template == name by {
        keys.index_of_first_ensures(k);
        let i = first_index(keys, k);
        assert(keys[i] == k);
        assert(rs[i].string == k && rs[i].template == name);
    }
}

/// Among the nodes `holder`, the reserved name stands for a group that
/// holds exactly the files whose rows name the parent of row `i`, and the
/// file of that row as one required path.
pub open spec fn file_leaves(
    holder: Map<Seq<char>, ConfigEntryView>,
    files: Seq<FilesView>,
    i: int,
) -> bool {
    &&& holder.contains_key(files_name())
    &&& holder[files_name()] is Group
    &&& forall|n: Seq<char>|
        holder[files_name()]->Group_children.contains_key(n) <==> file_pairs(files).contains(
            (files[i].config_parent, n),
        )
    &&& holder[files_name()]->Group_children[files[i].name] == (ConfigEntryView::Leaf {
        value: ConfigPrimitives::Scalar,
        mandatory: true,
        unique: true,
        description: files[i].description,
    })
}

/// Each file row has its leaf in the group of files of its parent, which
/// stands under the reserved name: at the top level where the parent is
/// the root, else in the group of the parent. That group holds exactly the
/// files whose rows name the parent; each leaf is one required path.
pub proof fn law_files_group(
    replacements: Seq<ReplaceView>,
    files: Seq<FilesView>,
    templates: Seq<TemplateView>,
    i: int,
)
    requires
        compile_failure(replacements, files, templates) is None,
        0 <= i < files.len(),
    ensures
        file_leaves(
            if files[i].config_parent == root_name() {
                schema_of(replacements, files, templates).config_keys
            } else {
                schema_of(replacements, files, templates).config_keys[files[i].config_parent]->Group_children
            },
            files,
            i,
        ),
        files[i].config_parent != root_name() ==> {
            &&& schema_of(replacements, files, templates).config_keys.contains_key(
                files[i].config_parent,
            )
            &&& schema_of(replacements, files, templates).config_keys[files[i].config_parent] is Group
        },
{
    let rs = replacements;
    let row = files[i];
    let parent = row.config_parent;
    let grouping = grouping_of(rs, files);
    let indexed = files_index_of(files);
    lemma_grouping(rs, files);
    lemma_no_duplicate(file_names(files));
    lemma_distinct(file_parents(files));
    lemma_members_of(file_pairs(files), parent);
    lemma_none_missing(grouping.groups, grouping.by_key.dom());
    assert(file_names(files)[i] == row.name);
    assert(file_names(files).contains(row.name));
    assert(file_parents(files)[i] == parent);
    assert(file_parents(files).contains(parent));
    assert(file_pairs(files)[i] == (parent, row.name));
    assert(file_pairs(files).contains((parent, row.name)));
    assert(grouping.members(parent).contains(files_name()));
    assert(!grouping.groups.contains(files_name()));
    assert(indexed.members.contains_key(parent));
    assert(members_in(indexed.members, parent) == members_of(file_pairs(files), parent));
}

/// A group all of whose children are leaves.
pub open spec fn group_of_leaves(node: ConfigEntryView) -> bool {
    &&& node is Group
    &&& forall|n: Seq<char>|
        node->Group_children.contains_key(n) ==> (#[trigger] node->Group_children[n]) is Leaf
}

/// Every node is one of the two, a group with children or a leaf with a
/// kind of value, never both and never neither.
pub proof fn law_group_or_leaf(node: ConfigEntryView)
    ensures
        (node is Group) != (node is Leaf),
{
}

/// The tree is at most three levels deep: a node of the top level is a
/// leaf or a group; a child of such a group is a leaf or a group of
/// leaves.
pub proof fn law_tree_shape(
    replacements: Seq<ReplaceView>,
    files: Seq<FilesView>,
    templates: Seq<TemplateView>,
)
    ensures
        forall|n: Seq<char>, m: Seq<char>|
            schema_of(replacements, files, templates).config_keys.contains_key(n) && schema_of(
                replacements,
                files,
                templates,
            ).config_keys[n] is Group && schema_of(
                replacements,
                files,
                templates,
            ).config_keys[n]->Group_children.contains_key(m) ==> (#[trigger] schema_of(
                replacements,
                files,
                templates,
            ).config_keys[n]->Group_children[m]) is Leaf || group_of_leaves(
                schema_of(replacements, files, templates).config_keys[n]->Group_children[m],
            ),
{
}

/// The outcome of a compilation depends on the tables alone: two outcomes
/// of compiling the same tables are both descriptions with the same view,
/// or both failures with the same view.
pub proof fn law_compile_deterministic(
    replacements: Seq<ReplaceView>,
    files: Seq<FilesView>,
    templates: Seq<TemplateView>,
    first: Result<MachineData, TableError>,
    second: Result<MachineData, TableError>,
)
    requires
        compiles_to(replacements, files, templates, first),
        compiles_to(replacements, files, templates, second),
    ensures
        match (first, second) {
            (Ok(a), Ok(b)) => a@ == b@,
            (Err(a), Err(b)) => a@ == b@,
            _ => false,
        },
{
}

/// Where no table holds a key twice and some row names a parent that is
/// neither the root nor the key of a replacement, the compilation fails
/// and names such a parent as an orphan.
pub proof fn law_orphan_parent(
    replacements: Seq<ReplaceView>,
    files: Seq<FilesView>,
    templates: Seq<TemplateView>,
    parent: Seq<char>,
)
    requires
        replace_failure(replacements) is None,
        files_failure(files) is None,
        templates_failure(templates) is None,
        parent != root_name(),
        replace_parents(replacements).contains(parent) || file_parents(files).contains(parent),
        !replace_keys(replacements).contains(parent),
    ensures
        compile_failure(replacements, files, templates) matches Some(
            TableErrorView::OrphanConfigKey(orphan),
        ) && orphan != root_name() && !replace_keys(replacements).contains(orphan) && (
        replace_parents(replacements).contains(orphan) || file_parents(files).contains(orphan)),
{
    let grouping = grouping_of(replacements, files);
    let known = grouping.by_key.dom();
    lemma_grouping(replacements, files);
    assert(grouping.groups.contains(parent));
    if first_missing(grouping.groups, known) is None {
        lemma_none_missing(grouping.groups, known);
    }
    lemma_first_some_found(missing(grouping.groups, known));
    lemma_first_duplicate(replace_keys(replacements));
    assert(known =~= replace_keys(replacements).to_set());
    assert(first_missing(grouping.groups, known) is Some);
    let orphan = first_missing(grouping.groups, known)->0;
    let at = choose|at: int|
        0 <= at < grouping.groups.len() && missing(grouping.groups, known)[at] == Some(orphan);
    assert(grouping.groups[at] == orphan);
    assert(grouping.groups.contains(orphan));
}

/// The tables agree with each other: no table holds a key twice, no
/// replacement has the reserved name as its key, every template that a
/// replacement names is in the template table, and every parent but the
/// root is the key of a replacement.
pub open spec fn consistent(
    replacements: Seq<ReplaceView>,
    files: Seq<FilesView>,
    templates: Seq<TemplateView>,
) -> bool {
    &&& replace_keys(replacements).no_duplicates()
    &&& file_names(files).no_duplicates()
    &&& template_names(templates).no_duplicates()
    &&& !replace_keys(replacements).contains(files_name())
    &&& forall|t: Seq<char>|
        replace_templates(replacements).contains(t) ==> template_names(templates).contains(t)
    &&& forall|p: Seq<char>|
        p != root_name() && (replace_parents(replacements).contains(p) || file_parents(
            files,
        ).contains(p)) ==> replace_keys(replacements).contains(p)
}

/// No key repeats an earlier one exactly where all keys are different.
pub proof fn lemma_first_duplicate(keys: Seq<Seq<char>>)
    ensures
        first_duplicate(keys) is None <==> keys.no_duplicates(),
{
    if first_duplicate(keys) is None {
        lemma_no_duplicate(keys);
    }
    if keys.no_duplicates() {
        assert forall|j: int| 0 <= j < keys.len() implies (#[trigger] repeats(keys)[j]) is None by {
            if keys.take(j).contains(keys[j]) {
                let i = choose|i: int| 0 <= i < j && keys.take(j)[i] == keys[j];
                assert(keys[i] == keys[j]);
            }
        }
        lemma_first_some_at(repeats(keys), keys.len() as int);
    }
}

/// Where every name is known, `first_missing` finds nothing.
pub proof fn lemma_all_known(names: Seq<Seq<char>>, known: Set<Seq<char>>)
    requires
        forall|n: Seq<char>| #[trigger] names.contains(n) ==> known.contains(n),
    ensures
        first_missing(names, known) is None,
{
    assert forall|j: int| 0 <= j < names.len() implies (#[trigger] missing(names, known)[j]) is None by {
        assert(names.contains(names[j]));
    }
    lemma_first_some_at(missing(names, known), names.len() as int);
}

/// No member that the tables give to a parent is an orphan: each is the key
/// of a replacement or the reserved name.
pub proof fn lemma_members_resolve(replacements: Seq<ReplaceView>, files: Seq<FilesView>)
    ensures
        first_some(orphan_members(grouping_of(replacements, files))) is None,
{
    let rs = replacements;
    let grouping = grouping_of(rs, files);
    lemma_grouping(rs, files);
    assert(grouping.by_key.dom() =~= replace_keys(rs).to_set());
    assert forall|i: int| 0 <= i < places(grouping).len() implies (#[trigger] orphan_members(
        grouping,
    )[i]) is None by {
        let place = places(grouping)[i];
        assert forall|m: Seq<char>| #[trigger]
            grouping.members(place).contains(m) implies known_members(grouping).contains(m) by {
            if replace_pairs(rs).contains((place, m)) {
                let k = choose|k: int|
                    0 <= k < replace_pairs(rs).len() && replace_pairs(rs)[k] == (place, m);
                assert(replace_keys(rs)[k] == m);
            }
        }
        lemma_all_known(grouping.members(place), known_members(grouping));
    }
    lemma_first_some_at(orphan_members(grouping), places(grouping).len() as int);
}

/// Where no replacement has the reserved name as its key, the files of the
/// tables resolve: a parent that holds the reserved member is in the file
/// index, and each of its files is known by name.
pub proof fn lemma_files_resolve(replacements: Seq<ReplaceView>, files: Seq<FilesView>)
    requires
        !replace_keys(replacements).contains(files_name()),
    ensures
        first_some(
            missing_file_groups(grouping_of(replacements, files), files_index_of(files)),
        ) is None,
        first_some(orphan_files(grouping_of(replacements, files), files_index_of(files))) is None,
{
    let rs = replacements;
    let grouping = grouping_of(rs, files);
    let indexed = files_index_of(files);
    lemma_grouping(rs, files);
    lemma_distinct(file_parents(files));
    assert forall|i: int|
        0 <= i < places(grouping).len() && grouping.members(places(grouping)[i]).contains(
            files_name(),
        ) implies file_parents(files).contains(#[trigger] places(grouping)[i]) by {
        let place = places(grouping)[i];
        if replace_pairs(rs).contains((place, files_name())) {
            let k = choose|k: int|
                0 <= k < replace_pairs(rs).len() && replace_pairs(rs)[k] == (place, files_name());
            assert(replace_keys(rs)[k] == files_name());
        }
    }
    assert forall|i: int| 0 <= i < places(grouping).len() implies (#[trigger] missing_file_groups(
        grouping,
        indexed,
    )[i]) is None by {
        let place = places(grouping)[i];
        if grouping.members(place).contains(files_name()) {
            assert(file_parents(files).contains(place));
            assert(indexed.members.contains_key(place));
        }
    }
    assert forall|i: int| 0 <= i < places(grouping).len() implies (#[trigger] orphan_files(
        grouping,
        indexed,
    )[i]) is None by {
        let place = places(grouping)[i];
        if grouping.members(place).contains(files_name()) {
            assert(file_parents(files).contains(place));
            assert(indexed.members.contains_key(place));
            lemma_members_of(file_pairs(files), place);
            assert forall|n: Seq<char>| #[trigger]
                members_in(indexed.members, place).contains(
                    n,
                ) implies indexed.by_name.dom().contains(n) by {
                let k = choose|k: int|
                    0 <= k < file_pairs(files).len() && file_pairs(files)[k] == (place, n);
                assert(file_names(files)[k] == n);
            }
            lemma_all_known(members_in(indexed.members, place), indexed.by_name.dom());
        }
    }
    lemma_first_some_at(missing_file_groups(grouping, indexed), places(grouping).len() as int);
    lemma_first_some_at(orphan_files(grouping, indexed), places(grouping).len() as int);
}

/// `key` stands at two positions of `keys`.
pub open spec fn repeated(keys: Seq<Seq<char>>, key: Seq<char>) -> bool {
    exists|i: int, j: int| 0 <= i < j < keys.len() && keys[i] == key && keys[j] == key
}

/// The key that `first_duplicate` finds stands at two positions.
pub proof fn lemma_duplicate_found(keys: Seq<Seq<char>>)
    ensures
        first_duplicate(keys) is Some ==> repeated(keys, first_duplicate(keys)->0),
{
    if first_duplicate(keys) is Some {
        let key = first_duplicate(keys)->0;
        lemma_first_some_found(repeats(keys));
        let j = choose|j: int| 0 <= j < keys.len() && repeats(keys)[j] == Some(key);
        let i = choose|i: int| 0 <= i < keys.take(j).len() && keys.take(j)[i] == keys[j];
        assert(0 <= i < j < keys.len() && keys[i] == key && keys[j] == key);
    }
}

/// The name that `first_missing` finds is one of the names, and not known.
pub proof fn lemma_missing_found(names: Seq<Seq<char>>, known: Set<Seq<char>>)
    ensures
        first_missing(names, known) is Some ==> names.contains(first_missing(names, known)->0)
            && !known.contains(first_missing(names, known)->0),
{
    if first_missing(names, known) is Some {
        let name = first_missing(names, known)->0;
        lemma_first_some_found(missing(names, known));
        let i = choose|i: int| 0 <= i < names.len() && missing(names, known)[i] == Some(name);
        assert(names[i] == name);
    }
}

/// A compilation fails for one of four reasons only, and the failure names
/// an offender: a key that stands twice in its table; a parent that is
/// neither the root nor the key of a replacement; the reserved name, which
/// a replacement has as its key; a template that a replacement names and
/// the template table lacks.
pub proof fn law_failure_kinds(
    replacements: Seq<ReplaceView>,
    files: Seq<FilesView>,
    templates: Seq<TemplateView>,
)
    ensures
        match compile_failure(replacements, files, templates) {
            None => true,
            Some(TableErrorView::DuplicateKey(key)) => {
                ||| repeated(replace_keys(replacements), key)
                ||| repeated(file_names(files), key)
                ||| repeated(template_names(templates), key)
            },
            Some(TableErrorView::OrphanConfigKey(parent)) => {
                &&& parent != root_name()
                &&& replace_parents(replacements).contains(parent) || file_parents(files).contains(
                    parent,
                )
                &&& !replace_keys(replacements).contains(parent)
            },
            Some(TableErrorView::ReservedKeyCollision(key)) => {
                &&& key == files_name()
                &&& replace_keys(replacements).contains(key)
            },
            Some(TableErrorView::UnknownTemplateReference(template)) => {
                &&& replace_templates(replacements).contains(template)
                &&& !template_names(templates).contains(template)
            },
            Some(_) => false,
        },
{
    let rs = replacements;
    let grouping = grouping_of(rs, files);
    let named = template_names(templates).to_set();
    lemma_duplicate_found(replace_keys(rs));
    lemma_duplicate_found(file_names(files));
    lemma_duplicate_found(template_names(templates));
    if replace_failure(rs) is None && files_failure(files) is None && templates_failure(
        templates,
    ) is None {
        lemma_grouping(rs, files);
        lemma_distinct(replace_templates(rs));
        assert(grouping.by_key.dom() =~= replace_keys(rs).to_set());
        assert(grouping.template_names == distinct(replace_templates(rs)));
        lemma_missing_found(grouping.groups, grouping.by_key.dom());
        lemma_missing_found(grouping.template_names, named);
        lemma_members_resolve(rs, files);
        if !replace_keys(rs).contains(files_name()) {
            lemma_files_resolve(rs, files);
        }
    }
}

/// The tables compile if and only if they agree with each other.
pub proof fn law_compiles_iff_consistent(
    replacements: Seq<ReplaceView>,
    files: Seq<FilesView>,
    templates: Seq<TemplateView>,
)
    ensures
        compile_failure(replacements, files, templates) is None <==> consistent(
            replacements,
            files,
            templates,
        ),
{
    let rs = replacements;
    let grouping = grouping_of(rs, files);
    let indexed = files_index_of(files);
    let named = template_names(templates).to_set();
    lemma_first_duplicate(replace_keys(rs));
    lemma_first_duplicate(file_names(files));
    lemma_first_duplicate(template_names(templates));
    lemma_grouping(rs, files);
    lemma_distinct(replace_templates(rs));
    lemma_distinct(file_parents(files));
    assert(grouping.by_key.dom() =~= replace_keys(rs).to_set());
    if compile_failure(rs, files, templates) is None {
        lemma_none_missing(grouping.groups, grouping.by_key.dom());
        lemma_none_missing(grouping.template_names, named);
        assert forall|p: Seq<char>|
            p != root_name() && (replace_parents(rs).contains(p) || file_parents(files).contains(
                p,
            )) implies replace_keys(rs).contains(p) by {
            assert(grouping.groups.contains(p));
        }
        assert forall|t: Seq<char>| replace_templates(rs).contains(t) implies template_names(
            templates,
        ).contains(t) by {
            assert(grouping.template_names.contains(t));
        }
    }
    if consistent(rs, files, templates) {
        assert(grouping.template_names == distinct(replace_templates(rs)));
        assert forall|g: Seq<char>| #[trigger]
            grouping.groups.contains(g) implies grouping.by_key.dom().contains(g) by {
            assert(replace_keys(rs).contains(g));
        }
        lemma_all_known(grouping.groups, grouping.by_key.dom());
        assert forall|t: Seq<char>| #[trigger]
            grouping.template_names.contains(t) implies named.contains(t) by {
            assert(replace_templates(rs).contains(t));
        }
        lemma_all_known(grouping.template_names, named);
        lemma_members_resolve(rs, files);
        lemma_files_resolve(rs, files);
    }
}

/// Two sequences hold the same elements, in whatever order.
pub open spec fn same_rows<T>(a: Seq<T>, b: Seq<T>) -> bool {
    forall|x: T| a.contains(x) <==> b.contains(x)
}

/// What sequences of the same elements project to holds the same values.
pub proof fn lemma_same_projection<T, U>(a: Seq<T>, b: Seq<T>, f: spec_fn(T) -> U)
    requires
        same_rows(a, b),
    ensures
        forall|u: U| a.map_values(f).contains(u) <==> b.map_values(f).contains(u),
{
    assert forall|u: U| a.map_values(f).contains(u) <==> b.map_values(f).contains(u) by {
        if a.map_values(f).contains(u) {
            let i = choose|i: int| 0 <= i < a.len() && a.map_values(f)[i] == u;
            assert(a.contains(a[i]));
            let j = choose|j: int| 0 <= j < b.len() && b[j] == a[i];
            assert(b.map_values(f)[j] == u);
        }
        if b.map_values(f).contains(u) {
            let i = choose|i: int| 0 <= i < b.len() && b.map_values(f)[i] == u;
            assert(b.contains(b[i]));
            let j = choose|j: int| 0 <= j < a.len() && a[j] == b[i];
            assert(a.map_values(f)[j] == u);
        }
    }
}

/// In sequences of the same elements whose keys are all different, a key
/// leads to the same element.
pub proof fn lemma_same_lookup<T>(a: Seq<T>, b: Seq<T>, f: spec_fn(T) -> Seq<char>, key: Seq<char>)
    requires
        same_rows(a, b),
        a.map_values(f).no_duplicates(),
        b.map_values(f).no_duplicates(),
        a.map_values(f).contains(key),
    ensures
        b.map_values(f).contains(key),
        a[first_index(a.map_values(f), key)] == b[first_index(b.map_values(f), key)],
{
    let keys_a = a.map_values(f);
    let keys_b = b.map_values(f);
    lemma_same_projection(a, b, f);
    keys_a.index_of_first_ensures(key);
    keys_b.index_of_first_ensures(key);
    let i = first_index(keys_a, key);
    let j = first_index(keys_b, key);
    assert(a.contains(a[i]));
    let k = choose|k: int| 0 <= k < b.len() && b[k] == a[i];
    assert(keys_b[k] == key);
}

/// The order of the rows is of no account: tables that agree with each
/// other compile to the same description as any tables that hold the same
/// rows and agree with each other too.
pub proof fn law_row_order(
    replacements: Seq<ReplaceView>,
    files: Seq<FilesView>,
    templates: Seq<TemplateView>,
    other_replacements: Seq<ReplaceView>,
    other_files: Seq<FilesView>,
    other_templates: Seq<TemplateView>,
)
    requires
        consistent(replacements, files, templates),
        consistent(other_replacements, other_files, other_templates),
        same_rows(replacements, other_replacements),
        same_rows(files, other_files),
        same_rows(templates, other_templates),
    ensures
        schema_of(replacements, files, templates) == schema_of(
            other_replacements,
            other_files,
            other_templates,
        ),
{
    let rs = replacements;
    let fs = files;
    let ts = templates;
    let rs2 = other_replacements;
    let fs2 = other_files;
    let ts2 = other_templates;
    let key_of = |r: ReplaceView| r.string;
    let parent_of = |r: ReplaceView| r.config_parent;
    let pair_of = |r: ReplaceView| (r.config_parent, r.string);
    let name_of = |f: FilesView| f.name;
    let owner_of = |f: FilesView| f.config_parent;
    let place_of = |f: FilesView| (f.config_parent, f.name);
    let title_of = |t: TemplateView| t.name;
    lemma_same_projection(rs, rs2, key_of);
    lemma_same_projection(rs, rs2, parent_of);
    lemma_same_projection(rs, rs2, pair_of);
    lemma_same_projection(fs, fs2, name_of);
    lemma_same_projection(fs, fs2, owner_of);
    lemma_same_projection(fs, fs2, place_of);
    lemma_same_projection(ts, ts2, title_of);
    assert(rs.map_values(key_of) == replace_keys(rs) && rs2.map_values(key_of) == replace_keys(rs2));
    assert(rs.map_values(parent_of) == replace_parents(rs) && rs2.map_values(parent_of)
        == replace_parents(rs2));
    assert(rs.map_values(pair_of) == replace_pairs(rs) && rs2.map_values(pair_of) == replace_pairs(
        rs2,
    ));
    assert(fs.map_values(name_of) == file_names(fs) && fs2.map_values(name_of) == file_names(fs2));
    assert(fs.map_values(owner_of) == file_parents(fs) && fs2.map_values(owner_of) == file_parents(
        fs2,
    ));
    assert(fs.map_values(place_of) == file_pairs(fs) && fs2.map_values(place_of) == file_pairs(fs2));
    assert(ts.map_values(title_of) == template_names(ts) && ts2.map_values(title_of)
        == template_names(ts2));

    let first = schema_of(rs, fs, ts);
    let second = schema_of(rs2, fs2, ts2);
    let entries = replace_index_of(rs).by_key;
    let entries2 = replace_index_of(rs2).by_key;
    assert(entries =~= entries2) by {
        assert forall|k: Seq<char>| entries.contains_key(k) implies entries[k] == entries2[k] by {
            lemma_same_lookup(rs, rs2, key_of, k);
        }
    }
    assert(first.files =~= second.files) by {
        assert forall|n: Seq<char>| first.files.contains_key(n) implies first.files[n]
            == second.files[n] by {
            lemma_same_lookup(fs, fs2, name_of, n);
        }
    }
    assert(first.templates =~= second.templates) by {
        assert forall|n: Seq<char>| first.templates.contains_key(n) implies first.templates[n]
            == second.templates[n] by {
            lemma_same_lookup(ts, ts2, title_of, n);
        }
    }
    let grouping = grouping_of(rs, fs);
    let grouping2 = grouping_of(rs2, fs2);
    let indexed = files_index_of(fs);
    let indexed2 = files_index_of(fs2);
    lemma_grouping(rs, fs);
    lemma_grouping(rs2, fs2);
    lemma_distinct(file_parents(fs));
    lemma_distinct(file_parents(fs2));
    assert(grouping.by_key == grouping2.by_key);
    assert(indexed.by_name == indexed2.by_name);
    assert forall|p: Seq<char>, n: Seq<char>|
        members_in(indexed.members, p).contains(n) <==> members_in(indexed2.members, p).contains(
            n,
        ) by {
        lemma_members_of(file_pairs(fs), p);
        lemma_members_of(file_pairs(fs2), p);
        if file_pairs(fs).contains((p, n)) {
            let k = choose|k: int| 0 <= k < file_pairs(fs).len() && file_pairs(fs)[k] == (p, n);
            assert(file_parents(fs)[k] == p);
        }
        if file_pairs(fs2).contains((p, n)) {
            let k = choose|k: int| 0 <= k < file_pairs(fs2).len() && file_pairs(fs2)[k] == (p, n);
            assert(file_parents(fs2)[k] == p);
        }
        assert(indexed.members.contains_key(p) <==> file_parents(fs).contains(p));
        assert(indexed2.members.contains_key(p) <==> file_parents(fs2).contains(p));
    }
    assert forall|p: Seq<char>, m: Seq<char>|
        member_node(grouping, indexed, p, m) == member_node(grouping2, indexed2, p, m) by {
        if m == files_name() {
            let held = files_group(members_in(indexed.members, p), indexed.by_name);
            let held2 = files_group(members_in(indexed2.members, p), indexed2.by_name);
            assert(held->Group_children =~= held2->Group_children);
        }
    }
    assert forall|g: Seq<char>|
        group_node(grouping, indexed, g) == group_node(grouping2, indexed2, g) by {
        let node = group_node(grouping, indexed, g);
        let node2 = group_node(grouping2, indexed2, g);
        assert forall|m: Seq<char>|
            grouping.members(g).contains(m) <==> grouping2.members(g).contains(m) by {}
        assert(node->Group_children =~= node2->Group_children);
    }
    assert(first.config_keys =~= second.config_keys) by {
        assert forall|n: Seq<char>|
            first.config_keys.contains_key(n) <==> second.config_keys.contains_key(n) by {
            assert(grouping.members(root_name()).contains(n) <==> grouping2.members(
                root_name(),
            ).contains(n));
        }
    }
}

} // verus!
