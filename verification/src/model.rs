//! The mathematics that the contracts are stated in: ordered sets of names,
//! the first flaw of a sequence, and what the three tables say once indexed.
use crate::types::{
    FilesEntryView, FilesView, ReplaceEntryView, ReplaceView, TableErrorView, TemplateEntryView,
    TemplateView,
};
use vstd::prelude::*;

verus! {

/// The parent of every row that belongs to no group.
pub open spec fn root_name() -> Seq<char> {
    "root"@
}

/// The reserved name of the group that holds the files of its parent.
pub open spec fn files_name() -> Seq<char> {
    "files"@
}

/// `names` with `name` added at the end, unless it is there already.
pub open spec fn with_member(names: Seq<Seq<char>>, name: Seq<char>) -> Seq<Seq<char>> {
    if names.contains(name) {
        names
    } else {
        names.push(name)
    }
}

/// The names of `names`, each once, in the order of their first mention.
pub open spec fn distinct(names: Seq<Seq<char>>) -> Seq<Seq<char>>
    decreases names.len(),
{
    if names.len() == 0 {
        Seq::empty()
    } else {
        with_member(distinct(names.drop_last()), names.last())
    }
}

/// `base`, followed by the parents that are neither the root nor in it
/// already, each once, in the order of their first mention.
pub open spec fn add_groups(base: Seq<Seq<char>>, parents: Seq<Seq<char>>) -> Seq<Seq<char>>
    decreases parents.len(),
{
    if parents.len() == 0 {
        base
    } else {
        let rest = add_groups(base, parents.drop_last());
        if parents.last() == root_name() {
            rest
        } else {
            with_member(rest, parents.last())
        }
    }
}

/// The members that the pairs (parent, member) give to `parent`, each once,
/// in the order of their first mention.
pub open spec fn members_of(pairs: Seq<(Seq<char>, Seq<char>)>, parent: Seq<char>) -> Seq<
    Seq<char>,
>
    decreases pairs.len(),
{
    if pairs.len() == 0 {
        Seq::empty()
    } else {
        let rest = members_of(pairs.drop_last(), parent);
        if pairs.last().0 == parent {
            with_member(rest, pairs.last().1)
        } else {
            rest
        }
    }
}

/// `with_member` holds what was held and the new name, and repeats nothing
/// where nothing was repeated.
pub proof fn lemma_with_member(names: Seq<Seq<char>>, name: Seq<char>)
    ensures
        forall|x: Seq<char>|
            #![trigger with_member(names, name).contains(x)]
            #![trigger names.contains(x)]
            with_member(names, name).contains(x) <==> names.contains(x) || x == name,
        names.no_duplicates() ==> with_member(names, name).no_duplicates(),
{
    let grown = with_member(names, name);
    if !names.contains(name) {
        assert(grown[names.len() as int] == name);
        assert forall|x: Seq<char>| grown.contains(x) <==> names.contains(x) || x == name by {
            if names.contains(x) {
                let j = choose|j: int| 0 <= j < names.len() && names[j] == x;
                assert(grown[j] == x);
            }
            if grown.contains(x) && x != name {
                let j = choose|j: int| 0 <= j < grown.len() && grown[j] == x;
                assert(names[j] == x);
            }
        }
    }
}

/// `distinct` holds the same names, each once.
pub proof fn lemma_distinct(names: Seq<Seq<char>>)
    ensures
        forall|x: Seq<char>|
            #![trigger distinct(names).contains(x)]
            #![trigger names.contains(x)]
            distinct(names).contains(x) <==> names.contains(x),
        distinct(names).no_duplicates(),
    decreases names.len(),
{
    if names.len() > 0 {
        let front = names.drop_last();
        lemma_distinct(front);
        lemma_with_member(distinct(front), names.last());
        assert forall|x: Seq<char>| names.contains(x) <==> front.contains(x) || x
            == names.last() by {
            if front.contains(x) {
                let j = choose|j: int| 0 <= j < front.len() && front[j] == x;
                assert(names[j] == x);
            }
            if x == names.last() {
                assert(names[names.len() - 1] == x);
            }
            if names.contains(x) && x != names.last() {
                let j = choose|j: int| 0 <= j < names.len() && names[j] == x;
                assert(front[j] == x);
            }
        }
    }
}

/// `add_groups` holds the base and every parent but the root.
pub proof fn lemma_add_groups(base: Seq<Seq<char>>, parents: Seq<Seq<char>>)
    ensures
        forall|x: Seq<char>|
            #![trigger add_groups(base, parents).contains(x)]
            #![trigger base.contains(x)]
            #![trigger parents.contains(x)]
            add_groups(base, parents).contains(x) <==> base.contains(x) || (x != root_name()
                && parents.contains(x)),
        base.no_duplicates() ==> add_groups(base, parents).no_duplicates(),
    decreases parents.len(),
{
    if parents.len() > 0 {
        let front = parents.drop_last();
        lemma_add_groups(base, front);
        lemma_with_member(add_groups(base, front), parents.last());
        assert forall|x: Seq<char>| parents.contains(x) <==> front.contains(x) || x
            == parents.last() by {
            if front.contains(x) {
                let j = choose|j: int| 0 <= j < front.len() && front[j] == x;
                assert(parents[j] == x);
            }
            if x == parents.last() {
                assert(parents[parents.len() - 1] == x);
            }
            if parents.contains(x) && x != parents.last() {
                let j = choose|j: int| 0 <= j < parents.len() && parents[j] == x;
                assert(front[j] == x);
            }
        }
    }
}

/// `members_of` holds the members that the pairs give to the parent, each
/// once.
pub proof fn lemma_members_of(pairs: Seq<(Seq<char>, Seq<char>)>, parent: Seq<char>)
    ensures
        forall|m: Seq<char>|
            #![trigger members_of(pairs, parent).contains(m)]
            #![trigger pairs.contains((parent, m))]
            members_of(pairs, parent).contains(m) <==> pairs.contains((parent, m)),
        members_of(pairs, parent).no_duplicates(),
    decreases pairs.len(),
{
    if pairs.len() > 0 {
        let front = pairs.drop_last();
        lemma_members_of(front, parent);
        lemma_with_member(members_of(front, parent), pairs.last().1);
        assert forall|m: Seq<char>| pairs.contains((parent, m)) <==> front.contains((parent, m))
            || pairs.last() == (parent, m) by {
            if front.contains((parent, m)) {
                let j = choose|j: int| 0 <= j < front.len() && front[j] == (parent, m);
                assert(pairs[j] == (parent, m));
            }
            if pairs.last() == (parent, m) {
                assert(pairs[pairs.len() - 1] == (parent, m));
            }
            if pairs.contains((parent, m)) && pairs.last() != (parent, m) {
                let j = choose|j: int| 0 <= j < pairs.len() && pairs[j] == (parent, m);
                assert(front[j] == (parent, m));
            }
        }
        assert forall|m: Seq<char>|
            members_of(pairs, parent).contains(m) <==> pairs.contains((parent, m)) by {
            let last = pairs.last();
            assert(last == (last.0, last.1));
            assert(members_of(front, parent).contains(m) <==> front.contains((parent, m)));
        }
    }
}

/// Keys of which none repeats an earlier one are all different, and each
/// stands first at its own position.
pub proof fn lemma_no_duplicate(keys: Seq<Seq<char>>)
    requires
        first_duplicate(keys) is None,
    ensures
        keys.no_duplicates(),
        forall|i: int| 0 <= i < keys.len() ==> first_index(keys, #[trigger] keys[i]) == i,
{
    lemma_first_some_found(repeats(keys));
    assert forall|i: int, j: int| 0 <= i < j < keys.len() implies keys[i] != keys[j] by {
        assert(repeats(keys)[j] is None);
        if keys[i] == keys[j] {
            assert(keys.take(j)[i] == keys[j]);
        }
    }
    assert forall|i: int| 0 <= i < keys.len() implies first_index(keys, #[trigger] keys[i])
        == i by {
        keys.index_of_first_ensures(keys[i]);
    }
}

/// One name more of `names` is taken: what is then taken holds what was
/// taken before, and the name at `at`.
pub proof fn lemma_take_next(names: Seq<Seq<char>>, at: int)
    requires
        0 <= at < names.len(),
    ensures
        forall|n: Seq<char>|
            names.take(at + 1).contains(n) <==> names.take(at).contains(n) || n == names[at],
{
    let seen = names.take(at);
    let next = names.take(at + 1);
    assert forall|n: Seq<char>| next.contains(n) <==> seen.contains(n) || n == names[at] by {
        if seen.contains(n) {
            let j = choose|j: int| 0 <= j < seen.len() && seen[j] == n;
            assert(next[j] == n);
        }
        if n == names[at] {
            assert(next[at] == n);
        }
        if next.contains(n) && n != names[at] {
            let j = choose|j: int| 0 <= j < next.len() && next[j] == n;
            assert(seen[j] == n);
        }
    }
}

/// The first of the options that holds something.
pub open spec fn first_some<T>(options: Seq<Option<T>>) -> Option<T>
    decreases options.len(),
{
    if options.len() == 0 {
        None
    } else {
        match first_some(options.drop_last()) {
            Some(found) => Some(found),
            None => options.last(),
        }
    }
}

/// For each of `names`: the name itself where `known` lacks it.
pub open spec fn missing(names: Seq<Seq<char>>, known: Set<Seq<char>>) -> Seq<Option<Seq<char>>> {
    Seq::new(
        names.len(),
        |i: int|
            if known.contains(names[i]) {
                None
            } else {
                Some(names[i])
            },
    )
}

/// The first of `names` that `known` lacks.
pub open spec fn first_missing(names: Seq<Seq<char>>, known: Set<Seq<char>>) -> Option<Seq<char>> {
    first_some(missing(names, known))
}

/// For each of `keys`: the key itself where it repeats an earlier one.
pub open spec fn repeats(keys: Seq<Seq<char>>) -> Seq<Option<Seq<char>>> {
    Seq::new(
        keys.len(),
        |i: int|
            if keys.take(i).contains(keys[i]) {
                Some(keys[i])
            } else {
                None
            },
    )
}

/// The first of `keys` that repeats an earlier one.
pub open spec fn first_duplicate(keys: Seq<Seq<char>>) -> Option<Seq<char>> {
    first_some(repeats(keys))
}

/// Where nothing before position `at` holds anything, the first that does
/// is the one at `at`; and there is none where `at` is the length.
pub proof fn lemma_first_some_at<T>(options: Seq<Option<T>>, at: int)
    requires
        0 <= at <= options.len(),
        forall|j: int| 0 <= j < at ==> options[j] is None,
    ensures
        at < options.len() && options[at] is Some ==> first_some(options) == options[at],
        at == options.len() ==> first_some(options) is None,
    decreases options.len(),
{
    if options.len() > 0 {
        let front = options.drop_last();
        if at < options.len() {
            lemma_first_some_at(front, at);
        } else {
            lemma_first_some_at(front, at - 1);
        }
    }
}

/// What `first_some` finds holds something and nothing stands before it;
/// where it finds nothing, nothing holds anything.
pub proof fn lemma_first_some_found<T>(options: Seq<Option<T>>)
    ensures
        match first_some(options) {
            Some(found) => exists|i: int|
                0 <= i < options.len() && options[i] == Some(found) && forall|j: int|
                    0 <= j < i ==> options[j] is None,
            None => forall|i: int| 0 <= i < options.len() ==> options[i] is None,
        },
    decreases options.len(),
{
    if options.len() > 0 {
        let front = options.drop_last();
        lemma_first_some_found(front);
        match first_some(front) {
            Some(found) => {
                let i = choose|i: int|
                    0 <= i < front.len() && front[i] == Some(found) && forall|j: int|
                        0 <= j < i ==> front[j] is None;
                assert(options[i] == Some(found));
                assert(forall|j: int| 0 <= j < i ==> options[j] == front[j]);
            },
            None => {
                assert(forall|j: int| 0 <= j < front.len() ==> options[j] == front[j]);
                if options.last() is Some {
                    let i = options.len() - 1;
                    assert(options[i] == Some(options.last()->0));
                }
            },
        }
    }
}

/// The name that an optional string holds.
pub open spec fn name_view(name: Option<String>) -> Option<Seq<char>> {
    match name {
        Some(name) => Some(name@),
        None => None,
    }
}

/// The keys of the replacement rows, in row order.
pub open spec fn replace_keys(rows: Seq<ReplaceView>) -> Seq<Seq<char>> {
    rows.map_values(|r: ReplaceView| r.string)
}

/// The parents of the replacement rows, in row order.
pub open spec fn replace_parents(rows: Seq<ReplaceView>) -> Seq<Seq<char>> {
    rows.map_values(|r: ReplaceView| r.config_parent)
}

/// The template names of the replacement rows, in row order.
pub open spec fn replace_templates(rows: Seq<ReplaceView>) -> Seq<Seq<char>> {
    rows.map_values(|r: ReplaceView| r.template)
}

/// Each replacement row as the pair of its parent and its key.
pub open spec fn replace_pairs(rows: Seq<ReplaceView>) -> Seq<(Seq<char>, Seq<char>)> {
    rows.map_values(|r: ReplaceView| (r.config_parent, r.string))
}

/// What a replacement row says of its key.
pub open spec fn replace_entry(row: ReplaceView) -> ReplaceEntryView {
    ReplaceEntryView {
        template: row.template,
        mandatory: row.mandatory,
        unique: row.unique,
        config_parent: row.config_parent,
        description: row.description,
    }
}

/// The names of the file rows, in row order.
pub open spec fn file_names(rows: Seq<FilesView>) -> Seq<Seq<char>> {
    rows.map_values(|f: FilesView| f.name)
}

/// The parents of the file rows, in row order.
pub open spec fn file_parents(rows: Seq<FilesView>) -> Seq<Seq<char>> {
    rows.map_values(|f: FilesView| f.config_parent)
}

/// Each file row as the pair of its parent and its name.
pub open spec fn file_pairs(rows: Seq<FilesView>) -> Seq<(Seq<char>, Seq<char>)> {
    rows.map_values(|f: FilesView| (f.config_parent, f.name))
}

/// What a file row says of its name.
pub open spec fn file_entry(row: FilesView) -> FilesEntryView {
    FilesEntryView { system: row.system, target: row.target, description: row.description }
}

/// The names of the template rows, in row order.
pub open spec fn template_names(rows: Seq<TemplateView>) -> Seq<Seq<char>> {
    rows.map_values(|t: TemplateView| t.name)
}

/// The first position at which `key` stands in `keys`.
pub open spec fn first_index(keys: Seq<Seq<char>>, key: Seq<char>) -> int {
    keys.index_of_first(key).unwrap()
}

/// The view of a replacement index.
pub struct ReplaceIndexView {
    /// Each key with what its row says.
    pub by_key: Map<Seq<char>, ReplaceEntryView>,
    /// The members of the root, oldest first.
    pub root_keys: Seq<Seq<char>>,
    /// The groups, oldest first.
    pub groups: Seq<Seq<char>>,
    /// The members of each group, oldest first.
    pub children: Map<Seq<char>, Seq<Seq<char>>>,
    /// The templates that the rows name, oldest first.
    pub template_names: Seq<Seq<char>>,
}

impl ReplaceIndexView {
    /// The members of `parent`, be it the root or a group; none where
    /// there is no such group.
    pub open spec fn members(self, parent: Seq<char>) -> Seq<Seq<char>> {
        if parent == root_name() {
            self.root_keys
        } else {
            members_in(self.children, parent)
        }
    }
}

/// The index of the replacement rows: each key with its row, the keys of
/// the root, the groups with their keys, and the templates named.
pub open spec fn replace_index_of(rows: Seq<ReplaceView>) -> ReplaceIndexView {
    ReplaceIndexView {
        by_key: Map::new(
            |k: Seq<char>| replace_keys(rows).contains(k),
            |k: Seq<char>| replace_entry(rows[first_index(replace_keys(rows), k)]),
        ),
        root_keys: members_of(replace_pairs(rows), root_name()),
        groups: add_groups(Seq::empty(), replace_parents(rows)),
        children: Map::new(
            |g: Seq<char>| add_groups(Seq::empty(), replace_parents(rows)).contains(g),
            |g: Seq<char>| members_of(replace_pairs(rows), g),
        ),
        template_names: distinct(replace_templates(rows)),
    }
}

/// The failure of indexing the replacement rows: the first key that
/// repeats an earlier one.
pub open spec fn replace_failure(rows: Seq<ReplaceView>) -> Option<TableErrorView> {
    match first_duplicate(replace_keys(rows)) {
        Some(key) => Some(TableErrorView::DuplicateKey(key)),
        None => None,
    }
}

/// The members that `children` gives to `group`; none where it has no such
/// group.
pub open spec fn members_in(children: Map<Seq<char>, Seq<Seq<char>>>, group: Seq<char>) -> Seq<
    Seq<char>,
> {
    if children.contains_key(group) {
        children[group]
    } else {
        Seq::empty()
    }
}

/// The view of a file index.
pub struct FilesIndexView {
    /// Each file name with what its row says.
    pub by_name: Map<Seq<char>, FilesEntryView>,
    /// The parents that the rows name, the root among them, oldest first.
    pub groups: Seq<Seq<char>>,
    /// The file names of each parent, oldest first.
    pub members: Map<Seq<char>, Seq<Seq<char>>>,
}

/// The index of the file rows: each name with its row, and the names that
/// each parent holds.
pub open spec fn files_index_of(rows: Seq<FilesView>) -> FilesIndexView {
    FilesIndexView {
        by_name: Map::new(
            |n: Seq<char>| file_names(rows).contains(n),
            |n: Seq<char>| file_entry(rows[first_index(file_names(rows), n)]),
        ),
        groups: distinct(file_parents(rows)),
        members: Map::new(
            |g: Seq<char>| distinct(file_parents(rows)).contains(g),
            |g: Seq<char>| members_of(file_pairs(rows), g),
        ),
    }
}

/// The failure of indexing the file rows: the first name that repeats an
/// earlier one.
pub open spec fn files_failure(rows: Seq<FilesView>) -> Option<TableErrorView> {
    match first_duplicate(file_names(rows)) {
        Some(name) => Some(TableErrorView::DuplicateKey(name)),
        None => None,
    }
}

/// The replacement index once the parents of the file rows are marked:
/// each of `parents` holds the reserved member, and those that are not the
/// root are groups.
pub open spec fn with_file_marks(
    index: ReplaceIndexView,
    parents: Seq<Seq<char>>,
) -> ReplaceIndexView {
    ReplaceIndexView {
        by_key: index.by_key,
        root_keys: if parents.contains(root_name()) {
            with_member(index.root_keys, files_name())
        } else {
            index.root_keys
        },
        groups: add_groups(index.groups, parents),
        children: Map::new(
            |g: Seq<char>| add_groups(index.groups, parents).contains(g),
            |g: Seq<char>|
                if parents.contains(g) {
                    with_member(members_in(index.children, g), files_name())
                } else {
                    members_in(index.children, g)
                },
        ),
        template_names: index.template_names,
    }
}

/// The replacements among `entries` that name `template`.
pub open spec fn owned_by(
    entries: Map<Seq<char>, ReplaceEntryView>,
    template: Seq<char>,
) -> Map<Seq<char>, ReplaceEntryView> {
    Map::new(
        |k: Seq<char>| entries.contains_key(k) && entries[k].template == template,
        |k: Seq<char>| entries[k],
    )
}

/// What a template row says of its name, with the replacements it owns.
pub open spec fn template_entry(
    row: TemplateView,
    entries: Map<Seq<char>, ReplaceEntryView>,
) -> TemplateEntryView {
    TemplateEntryView {
        system: row.system,
        source: row.source,
        target: row.target,
        description: row.description,
        replacements: owned_by(entries, row.name),
    }
}

/// The index of the template rows: each name with its row and with the
/// replacements among `entries` that name it.
pub open spec fn template_index_of(
    rows: Seq<TemplateView>,
    entries: Map<Seq<char>, ReplaceEntryView>,
) -> Map<Seq<char>, TemplateEntryView> {
    Map::new(
        |n: Seq<char>| template_names(rows).contains(n),
        |n: Seq<char>| template_entry(rows[first_index(template_names(rows), n)], entries),
    )
}

/// The failure of indexing the template rows: the first name that repeats
/// an earlier one.
pub open spec fn templates_failure(rows: Seq<TemplateView>) -> Option<TableErrorView> {
    match first_duplicate(template_names(rows)) {
        Some(name) => Some(TableErrorView::DuplicateKey(name)),
        None => None,
    }
}

} // verus!
