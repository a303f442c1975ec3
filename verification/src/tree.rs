//! The builder of the configuration tree: it checks every reference among
//! the indices, then turns each name of the root and each group into a
//! node.
use crate::index::{FilesIndex, ReplaceIndex};
use crate::model::{
    files_name, first_missing, first_some, lemma_first_some_at, lemma_first_some_found,
    lemma_take_next, members_in, missing, name_view, root_name, FilesIndexView,
    ReplaceIndexView,
};
use crate::string_map::StringMap;
use crate::string_set::StringSet;
use crate::types::{
    entry_view, entry_wf, tree_view, tree_wf, ConfigEntry, ConfigEntryView, ConfigPrimitives,
    FilesEntry, FilesEntryView, ReplaceEntry, ReplaceEntryView, TableError, TableErrorView,
    TemplateEntry,
};
use vstd::prelude::*;

verus! {

/// The description of every group of replacement keys.
pub open spec fn group_description() -> Seq<char> {
    "Group of config entries"@
}

/// The description of every group of files.
pub open spec fn files_description() -> Seq<char> {
    "Set of file paths to be copied from according to the machine data specs."@
}

/// The leaf of a replacement: it holds one value where the replacement is
/// unique, else a list.
pub open spec fn replacement_leaf(entry: ReplaceEntryView) -> ConfigEntryView {
    ConfigEntryView::Leaf {
        value: if entry.unique {
            ConfigPrimitives::Scalar
        } else {
            ConfigPrimitives::Array
        },
        mandatory: entry.mandatory,
        unique: entry.unique,
        description: entry.description,
    }
}

/// The leaf of a file: one required path.
pub open spec fn file_leaf(entry: FilesEntryView) -> ConfigEntryView {
    ConfigEntryView::Leaf {
        value: ConfigPrimitives::Scalar,
        mandatory: true,
        unique: true,
        description: entry.description,
    }
}

/// The group of the files `names`, each with its leaf.
pub open spec fn files_group(
    names: Seq<Seq<char>>,
    by_name: Map<Seq<char>, FilesEntryView>,
) -> ConfigEntryView {
    ConfigEntryView::Group {
        children: Map::new(|n: Seq<char>| names.contains(n), |n: Seq<char>| file_leaf(by_name[n])),
        description: files_description(),
        mandatory: true,
        unique: true,
    }
}

/// The node of a member of `parent`: the group of the parent's files for
/// the reserved member, else the leaf of the replacement of that key.
pub open spec fn member_node(
    index: ReplaceIndexView,
    files: FilesIndexView,
    parent: Seq<char>,
    member: Seq<char>,
) -> ConfigEntryView {
    if member == files_name() {
        files_group(members_in(files.members, parent), files.by_name)
    } else {
        replacement_leaf(index.by_key[member])
    }
}

/// The node of a group: its members, each with its node.
pub open spec fn group_node(
    index: ReplaceIndexView,
    files: FilesIndexView,
    group: Seq<char>,
) -> ConfigEntryView {
    ConfigEntryView::Group {
        children: Map::new(
            |m: Seq<char>| index.members(group).contains(m),
            |m: Seq<char>| member_node(index, files, group, m),
        ),
        description: group_description(),
        mandatory: true,
        unique: true,
    }
}

/// The node under a name of the top level: that of the group where the
/// name is one, else that of the member of the root.
pub open spec fn top_node(
    index: ReplaceIndexView,
    files: FilesIndexView,
    name: Seq<char>,
) -> ConfigEntryView {
    if index.groups.contains(name) {
        group_node(index, files, name)
    } else {
        member_node(index, files, root_name(), name)
    }
}

/// The configuration tree: a node for each member of the root and for each
/// group.
pub open spec fn tree_of(index: ReplaceIndexView, files: FilesIndexView) -> Map<
    Seq<char>,
    ConfigEntryView,
> {
    Map::new(
        |n: Seq<char>| index.root_keys.contains(n) || index.groups.contains(n),
        |n: Seq<char>| top_node(index, files, n),
    )
}

/// The parents of the tree: the root, then the groups.
pub open spec fn places(index: ReplaceIndexView) -> Seq<Seq<char>> {
    seq![root_name()] + index.groups
}

/// What a member may be: a key of the replacements or the reserved name.
pub open spec fn known_members(index: ReplaceIndexView) -> Set<Seq<char>> {
    index.by_key.dom().insert(files_name())
}

/// For each parent: its first member that is neither a key nor the
/// reserved name.
pub open spec fn orphan_members(index: ReplaceIndexView) -> Seq<Option<Seq<char>>> {
    Seq::new(
        places(index).len(),
        |i: int| first_missing(index.members(places(index)[i]), known_members(index)),
    )
}

/// For each parent: the parent itself where it holds the reserved member
/// and the file index lacks it.
pub open spec fn missing_file_groups(index: ReplaceIndexView, files: FilesIndexView) -> Seq<
    Option<Seq<char>>,
> {
    Seq::new(
        places(index).len(),
        |i: int|
            if index.members(places(index)[i]).contains(files_name())
                && !files.members.contains_key(places(index)[i]) {
                Some(places(index)[i])
            } else {
                None
            },
    )
}

/// For each parent that holds the reserved member: the first of its files
/// that the file index does not know by name.
pub open spec fn orphan_files(index: ReplaceIndexView, files: FilesIndexView) -> Seq<
    Option<Seq<char>>,
> {
    Seq::new(
        places(index).len(),
        |i: int|
            if index.members(places(index)[i]).contains(files_name()) {
                first_missing(members_in(files.members, places(index)[i]), files.by_name.dom())
            } else {
                None
            },
    )
}

/// Why no tree can be built, if it cannot. The checks, in this order: every
/// group is the key of a replacement; every member is the key of a
/// replacement or the reserved name; no replacement has the reserved name
/// as its key; every template named is in `templates`; every parent that
/// holds the reserved member is in the file index; each of its files is
/// known by name. Within a check, the first offender in the order of the
/// indices is named.
pub open spec fn tree_failure(
    index: ReplaceIndexView,
    files: FilesIndexView,
    templates: Set<Seq<char>>,
) -> Option<TableErrorView> {
    if first_missing(index.groups, index.by_key.dom()) is Some {
        Some(TableErrorView::OrphanConfigKey(first_missing(index.groups, index.by_key.dom())->0))
    } else if first_some(orphan_members(index)) is Some {
        Some(TableErrorView::OrphanConfigKey(first_some(orphan_members(index))->0))
    } else if index.by_key.contains_key(files_name()) {
        Some(TableErrorView::ReservedKeyCollision(files_name()))
    } else if first_missing(index.template_names, templates) is Some {
        Some(
            TableErrorView::UnknownTemplateReference(
                first_missing(index.template_names, templates)->0,
            ),
        )
    } else if first_some(missing_file_groups(index, files)) is Some {
        Some(TableErrorView::MissingFileGroup(first_some(missing_file_groups(index, files))->0))
    } else if first_some(orphan_files(index, files)) is Some {
        Some(TableErrorView::OrphanConfigKey(first_some(orphan_files(index, files))->0))
    } else {
        None
    }
}

/// The member of `parent` can be turned into a node: the reserved member
/// where the file index has the parent and knows each of its files, any
/// other where it is the key of a replacement.
pub open spec fn member_sound(
    index: ReplaceIndexView,
    files: FilesIndexView,
    parent: Seq<char>,
    member: Seq<char>,
) -> bool {
    if member == files_name() {
        &&& files.members.contains_key(parent)
        &&& forall|n: Seq<char>| #[trigger]
            files.members[parent].contains(n) ==> files.by_name.contains_key(n)
    } else {
        index.by_key.contains_key(member)
    }
}

/// Every member of every parent can be turned into a node.
pub open spec fn sound(index: ReplaceIndexView, files: FilesIndexView) -> bool {
    forall|i: int, m: Seq<char>|
        0 <= i < places(index).len() && #[trigger] index.members(places(index)[i]).contains(m)
            ==> member_sound(index, files, places(index)[i], m)
}

/// Where `first_missing` finds nothing, every name is known.
pub proof fn lemma_none_missing(names: Seq<Seq<char>>, known: Set<Seq<char>>)
    requires
        first_missing(names, known) is None,
    ensures
        forall|n: Seq<char>| #[trigger] names.contains(n) ==> known.contains(n),
{
    lemma_first_some_found(missing(names, known));
    assert forall|n: Seq<char>| names.contains(n) implies known.contains(n) by {
        let k = choose|k: int| 0 <= k < names.len() && names[k] == n;
        assert(missing(names, known)[k] is None);
    }
}

/// Indices that pass every check are sound.
pub proof fn lemma_checked_is_sound(
    index: ReplaceIndexView,
    files: FilesIndexView,
    templates: Set<Seq<char>>,
)
    requires
        tree_failure(index, files, templates) is None,
    ensures
        sound(index, files),
{
    lemma_first_some_found(orphan_members(index));
    lemma_first_some_found(missing_file_groups(index, files));
    lemma_first_some_found(orphan_files(index, files));
    assert forall|i: int, m: Seq<char>|
        0 <= i < places(index).len() && #[trigger] index.members(places(index)[i]).contains(
            m,
        ) implies member_sound(index, files, places(index)[i], m) by {
        let parent = places(index)[i];
        assert(orphan_members(index)[i] is None);
        lemma_none_missing(index.members(parent), known_members(index));
        if m == files_name() {
            assert(missing_file_groups(index, files)[i] is None);
            assert(orphan_files(index, files)[i] is None);
            lemma_none_missing(members_in(files.members, parent), files.by_name.dom());
        }
    }
}

/// `known`, with the name of `also` where there is one.
pub open spec fn known_with(known: Set<Seq<char>>, also: Option<&String>) -> Set<Seq<char>> {
    match also {
        Some(name) => known.insert(name@),
        None => known,
    }
}

/// The first of `names` that is neither a key of `known` nor `also`.
fn first_unknown<V>(names: &StringSet, known: &StringMap<V>, also: Option<&String>) -> (found:
    Option<String>)
    ensures
        name_view(found) == first_missing(names.order(), known_with(known@.dom(), also)),
{
    let ghost options = missing(names.order(), known_with(known@.dom(), also));
    let mut at: usize = 0;
    while at < names.len()
        invariant
            at <= names.order().len(),
            options == missing(names.order(), known_with(known@.dom(), also)),
            forall|j: int| 0 <= j < at ==> (#[trigger] options[j]) is None,
        decreases names.order().len() - at,
    {
        let name = names.nth(at);
        let excused = match also {
            Some(other) => *name == *other,
            None => false,
        };
        if !excused && !known.contains_key(name) {
            proof {
                lemma_first_some_at(options, at as int);
            }
            return Some(name.clone());
        }
        at += 1;
    }
    proof {
        lemma_first_some_at(options, at as int);
    }
    None
}

/// The first group that is not the key of a replacement.
fn first_unknown_group(index: &ReplaceIndex) -> (found: Option<String>)
    ensures
        name_view(found) == first_missing(index@.groups, index@.by_key.dom()),
{
    let ghost options = missing(index@.groups, index@.by_key.dom());
    let mut at: usize = 0;
    while at < index.group_children.len()
        invariant
            at <= index@.groups.len(),
            options == missing(index@.groups, index@.by_key.dom()),
            forall|j: int| 0 <= j < at ==> (#[trigger] options[j]) is None,
        decreases index@.groups.len() - at,
    {
        let group = index.group_children.key_at(at);
        if !index.by_key.contains_key(group) {
            proof {
                lemma_first_some_at(options, at as int);
            }
            return Some(group.clone());
        }
        at += 1;
    }
    proof {
        lemma_first_some_at(options, at as int);
    }
    None
}

/// The first member of any parent that is neither the key of a replacement
/// nor the reserved name.
fn first_orphan_member(index: &ReplaceIndex, reserved: &String) -> (found: Option<String>)
    requires
        index.wf(),
        reserved@ == files_name(),
    ensures
        name_view(found) == first_some(orphan_members(index@)),
{
    let ghost options = orphan_members(index@);
    let ghost known = known_with(index.by_key@.dom(), Some(reserved));
    proof {
        assert(known =~= known_members(index@));
    }
    let found = first_unknown(&index.root_keys, &index.by_key, Some(reserved));
    if found.is_some() {
        proof {
            lemma_first_some_at(options, 0);
        }
        return found;
    }
    let mut at: usize = 0;
    while at < index.group_children.len()
        invariant
            at <= index@.groups.len(),
            index.wf(),
            options == orphan_members(index@),
            known == known_with(index.by_key@.dom(), Some(reserved)),
            known == known_members(index@),
            forall|j: int| 0 <= j <= at ==> (#[trigger] options[j]) is None,
        decreases index@.groups.len() - at,
    {
        let members = index.group_children.value_at(at);
        proof {
            index.group_children.lemma_entry(at as int);
        }
        let found = first_unknown(members, &index.by_key, Some(reserved));
        if found.is_some() {
            proof {
                lemma_first_some_at(options, at + 1);
            }
            return found;
        }
        at += 1;
    }
    proof {
        lemma_first_some_at(options, at + 1);
    }
    None
}

/// The first parent that holds the reserved member and that the file index
/// lacks.
fn first_missing_file_group(index: &ReplaceIndex, files: &FilesIndex, reserved: &String) -> (found:
    Option<String>)
    requires
        index.wf(),
        reserved@ == files_name(),
    ensures
        name_view(found) == first_some(missing_file_groups(index@, files@)),
{
    let ghost options = missing_file_groups(index@, files@);
    let root = "root".to_owned();
    if index.root_keys.contains(reserved) && !files.files_by_group.contains_key(&root) {
        proof {
            lemma_first_some_at(options, 0);
        }
        return Some(root);
    }
    let mut at: usize = 0;
    while at < index.group_children.len()
        invariant
            at <= index@.groups.len(),
            index.wf(),
            reserved@ == files_name(),
            options == missing_file_groups(index@, files@),
            forall|j: int| 0 <= j <= at ==> (#[trigger] options[j]) is None,
        decreases index@.groups.len() - at,
    {
        let group = index.group_children.key_at(at);
        let members = index.group_children.value_at(at);
        proof {
            index.group_children.lemma_entry(at as int);
        }
        if members.contains(reserved) && !files.files_by_group.contains_key(group) {
            proof {
                lemma_first_some_at(options, at + 1);
            }
            return Some(group.clone());
        }
        at += 1;
    }
    proof {
        lemma_first_some_at(options, at + 1);
    }
    None
}

/// The first file of any parent that holds the reserved member which the
/// file index does not know by name.
fn first_orphan_file(index: &ReplaceIndex, files: &FilesIndex, reserved: &String) -> (found:
    Option<String>)
    requires
        index.wf(),
        reserved@ == files_name(),
    ensures
        name_view(found) == first_some(orphan_files(index@, files@)),
{
    let ghost options = orphan_files(index@, files@);
    let root = "root".to_owned();
    proof {
        assert(files@.by_name.dom() =~= files.by_name@.dom());
        assert(places(index@)[0] == root_name());
    }
    if index.root_keys.contains(reserved) {
        match files.files_by_group.get(&root) {
            Some(names) => {
                let found = first_unknown(names, &files.by_name, None);
                if found.is_some() {
                    proof {
                        lemma_first_some_at(options, 0);
                    }
                    return found;
                }
            },
            None => {
                assert(missing(Seq::empty(), files@.by_name.dom()) =~= Seq::empty());
            },
        }
    }
    let mut at: usize = 0;
    while at < index.group_children.len()
        invariant
            at <= index@.groups.len(),
            index.wf(),
            reserved@ == files_name(),
            options == orphan_files(index@, files@),
            files@.by_name.dom() == files.by_name@.dom(),
            forall|j: int| 0 <= j <= at ==> (#[trigger] options[j]) is None,
        decreases index@.groups.len() - at,
    {
        let group = index.group_children.key_at(at);
        let members = index.group_children.value_at(at);
        proof {
            index.group_children.lemma_entry(at as int);
            assert(places(index@)[at + 1] == group@);
            assert(index@.members(group@) == members.order());
        }
        if members.contains(reserved) {
            match files.files_by_group.get(group) {
                Some(names) => {
                    let found = first_unknown(names, &files.by_name, None);
                    if found.is_some() {
                        proof {
                            lemma_first_some_at(options, at + 1);
                        }
                        return found;
                    }
                },
                None => {
                    assert(missing(Seq::empty(), files@.by_name.dom()) =~= Seq::empty());
                },
            }
        }
        at += 1;
    }
    proof {
        lemma_first_some_at(options, at + 1);
    }
    None
}

/// Checks every reference among the indices, and names the first that
/// does not resolve.
pub fn check_references(
    index: &ReplaceIndex,
    files: &FilesIndex,
    templates: &StringMap<TemplateEntry>,
) -> (result: Result<(), TableError>)
    requires
        index.wf(),
    ensures
        match result {
            Ok(_) => tree_failure(index@, files@, templates@.dom()) is None,
            Err(error) => tree_failure(index@, files@, templates@.dom()) == Some(error@),
        },
{
    let reserved = "files".to_owned();
    match first_unknown_group(index) {
        Some(group) => {
            return Err(TableError::OrphanConfigKey(group));
        },
        None => {},
    }
    match first_orphan_member(index, &reserved) {
        Some(member) => {
            return Err(TableError::OrphanConfigKey(member));
        },
        None => {},
    }
    if index.by_key.contains_key(&reserved) {
        return Err(TableError::ReservedKeyCollision(reserved));
    }
    match first_unknown(&index.template_names, templates, None) {
        Some(template) => {
            return Err(TableError::UnknownTemplateReference(template));
        },
        None => {},
    }
    match first_missing_file_group(index, files, &reserved) {
        Some(group) => {
            return Err(TableError::MissingFileGroup(group));
        },
        None => {},
    }
    match first_orphan_file(index, files, &reserved) {
        Some(name) => {
            return Err(TableError::OrphanConfigKey(name));
        },
        None => {},
    }
    Ok(())
}

/// The leaf of a replacement.
fn replacement_entry(entry: &ReplaceEntry) -> (node: ConfigEntry)
    ensures
        node@ == replacement_leaf(entry@),
        entry_wf(node),
{
    ConfigEntry::Leaf {
        value: if entry.unique {
            ConfigPrimitives::Scalar
        } else {
            ConfigPrimitives::Array
        },
        mandatory: entry.mandatory,
        unique: entry.unique,
        description: entry.description.clone(),
    }
}

/// The group of the files `names`, each with its leaf.
fn files_entry(names: &StringSet, by_name: &StringMap<FilesEntry>) -> (node: ConfigEntry)
    requires
        forall|n: Seq<char>| names.order().contains(n) ==> by_name@.contains_key(n),
    ensures
        node@ == files_group(names.order(), by_name@.map_values(|e: FilesEntry| e@)),
        entry_wf(node),
{
    let mut children: StringMap<ConfigEntry> = StringMap::new();
    let mut at: usize = 0;
    while at < names.len()
        invariant
            at <= names.order().len(),
            forall|n: Seq<char>| names.order().contains(n) ==> by_name@.contains_key(n),
            tree_wf(children),
            forall|n: Seq<char>|
                children@.contains_key(n) <==> names.order().take(at as int).contains(n),
            forall|n: Seq<char>|
                children@.contains_key(n) ==> entry_view(#[trigger] children@[n]) == file_leaf(
                    by_name@[n]@,
                ),
        decreases names.order().len() - at,
    {
        let name = names.nth(at);
        proof {
            lemma_take_next(names.order(), at as int);
            assert(names.order().contains(name@));
        }
        let entry = by_name.at(name);
        let leaf = ConfigEntry::Leaf {
            value: ConfigPrimitives::Scalar,
            mandatory: true,
            unique: true,
            description: entry.description.clone(),
        };
        children.insert(name.clone(), leaf);
        at += 1;
    }
    let node = ConfigEntry::Group {
        children,
        description: "Set of file paths to be copied from according to the machine data specs.".to_owned(),
        mandatory: true,
        unique: true,
    };
    proof {
        assert(names.order().take(at as int) =~= names.order());
        assert(tree_view(children) =~= files_group(
            names.order(),
            by_name@.map_values(|e: FilesEntry| e@),
        )->Group_children);
    }
    node
}

/// The node of a member of `parent`.
fn member_entry(
    index: &ReplaceIndex,
    files: &FilesIndex,
    parent: &String,
    member: &String,
    reserved: &String,
) -> (node: ConfigEntry)
    requires
        reserved@ == files_name(),
        member_sound(index@, files@, parent@, member@),
    ensures
        node@ == member_node(index@, files@, parent@, member@),
        entry_wf(node),
{
    if *member == *reserved {
        let names = files.files_by_group.at(parent);
        assert(files@.members[parent@] == names.order());
        assert forall|n: Seq<char>| names.order().contains(n) implies files.by_name@.contains_key(
            n,
        ) by {
            assert(files@.members[parent@].contains(n));
            assert(files@.by_name.contains_key(n));
        }
        files_entry(names, &files.by_name)
    } else {
        replacement_entry(index.by_key.at(member))
    }
}

/// The node of the group at position `at`.
fn group_entry(index: &ReplaceIndex, files: &FilesIndex, at: usize, reserved: &String) -> (node:
    ConfigEntry)
    requires
        index.wf(),
        reserved@ == files_name(),
        sound(index@, files@),
        at < index@.groups.len(),
    ensures
        node@ == group_node(index@, files@, index@.groups[at as int]),
        entry_wf(node),
{
    let group = index.group_children.key_at(at);
    let members = index.group_children.value_at(at);
    proof {
        index.group_children.lemma_entry(at as int);
        assert(places(index@)[at + 1] == group@);
        assert(index@.members(group@) == members.order());
    }
    let mut children: StringMap<ConfigEntry> = StringMap::new();
    let mut next: usize = 0;
    while next < members.len()
        invariant
            next <= members.order().len(),
            reserved@ == files_name(),
            sound(index@, files@),
            at < index@.groups.len(),
            places(index@)[at + 1] == group@,
            index@.members(group@) == members.order(),
            tree_wf(children),
            forall|m: Seq<char>|
                children@.contains_key(m) <==> members.order().take(next as int).contains(m),
            forall|m: Seq<char>|
                children@.contains_key(m) ==> entry_view(#[trigger] children@[m]) == member_node(
                    index@,
                    files@,
                    group@,
                    m,
                ),
        decreases members.order().len() - next,
    {
        let member = members.nth(next);
        proof {
            lemma_take_next(members.order(), next as int);
            assert(index@.members(places(index@)[at + 1]).contains(member@));
        }
        let node = member_entry(index, files, group, member, reserved);
        children.insert(member.clone(), node);
        next += 1;
    }
    let node = ConfigEntry::Group {
        children,
        description: "Group of config entries".to_owned(),
        mandatory: true,
        unique: true,
    };
    proof {
        assert(members.order().take(next as int) =~= members.order());
        assert(tree_view(children) =~= group_node(index@, files@, group@)->Group_children);
    }
    node
}

/// Builds the configuration tree from the indices: a node for each member
/// of the root and for each group. A group holds a node for each of its
/// members; the reserved member stands for the group of the parent's
/// files, any other for the leaf of its replacement. Fails where a
/// reference among the indices does not resolve, as `tree_failure` says.
pub fn build_config_tree(
    index: &ReplaceIndex,
    files: &FilesIndex,
    templates: &StringMap<TemplateEntry>,
) -> (result: Result<StringMap<ConfigEntry>, TableError>)
    requires
        index.wf(),
    ensures
        match result {
            Ok(tree) => {
                &&& tree_failure(index@, files@, templates@.dom()) is None
                &&& tree_wf(tree)
                &&& tree_view(tree) == tree_of(index@, files@)
            },
            Err(error) => tree_failure(index@, files@, templates@.dom()) == Some(error@),
        },
{
    match check_references(index, files, templates) {
        Err(error) => {
            return Err(error);
        },
        Ok(_) => {},
    }
    proof {
        lemma_checked_is_sound(index@, files@, templates@.dom());
    }
    let reserved = "files".to_owned();
    let root = "root".to_owned();
    let mut tree: StringMap<ConfigEntry> = StringMap::new();
    let mut at: usize = 0;
    while at < index.group_children.len()
        invariant
            at <= index@.groups.len(),
            index.wf(),
            reserved@ == files_name(),
            sound(index@, files@),
            tree_wf(tree),
            forall|n: Seq<char>| tree@.contains_key(n) <==> index@.groups.take(at as int).contains(n),
            forall|n: Seq<char>|
                tree@.contains_key(n) ==> entry_view(#[trigger] tree@[n]) == top_node(
                    index@,
                    files@,
                    n,
                ),
        decreases index@.groups.len() - at,
    {
        let group = index.group_children.key_at(at);
        proof {
            lemma_take_next(index@.groups, at as int);
        }
        let node = group_entry(index, files, at, &reserved);
        tree.insert(group.clone(), node);
        at += 1;
    }
    proof {
        assert(index@.groups.take(at as int) =~= index@.groups);
        assert(places(index@)[0] == root_name());
    }
    let mut next: usize = 0;
    while next < index.root_keys.len()
        invariant
            next <= index@.root_keys.len(),
            index.wf(),
            reserved@ == files_name(),
            root@ == root_name(),
            sound(index@, files@),
            places(index@)[0] == root_name(),
            tree_wf(tree),
            forall|n: Seq<char>|
                tree@.contains_key(n) <==> index@.groups.contains(n) || index@.root_keys.take(
                    next as int,
                ).contains(n),
            forall|n: Seq<char>|
                tree@.contains_key(n) ==> entry_view(#[trigger] tree@[n]) == top_node(
                    index@,
                    files@,
                    n,
                ),
        decreases index@.root_keys.len() - next,
    {
        let name = index.root_keys.nth(next);
        proof {
            lemma_take_next(index@.root_keys, next as int);
            assert(index@.members(places(index@)[0]).contains(name@));
        }
        if !index.group_children.contains_key(name) {
            let node = member_entry(index, files, &root, name, &reserved);
            tree.insert(name.clone(), node);
        }
        next += 1;
    }
    proof {
        assert(index@.root_keys.take(next as int) =~= index@.root_keys);
        assert(tree_view(tree) =~= tree_of(index@, files@));
    }
    Ok(tree)
}

} // verus!
