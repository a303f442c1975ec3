//! The three indexers: each turns the rows of one table into lookups by
//! name, or names the first key that occurs twice.
use crate::model::{
    add_groups, distinct, file_entry, file_names, file_pairs, file_parents, files_failure,
    files_index_of, files_name, lemma_first_some_at, members_in, members_of, owned_by, repeats,
    replace_entry, replace_failure, replace_index_of, replace_keys, replace_pairs,
    replace_parents, replace_templates, root_name, template_entry, template_index_of,
    template_names, templates_failure, with_file_marks, with_member, FilesIndexView,
    ReplaceIndexView,
};
use crate::string_map::StringMap;
use crate::string_set::StringSet;
use crate::types::{
    views, Files, FilesEntry, Replace, ReplaceEntry, TableError, Template, TemplateEntry,
};
use vstd::prelude::*;

verus! {

/// The replacement table by key, with the grouping that its rows declare.
#[derive(Debug)]
pub struct ReplaceIndex {
    /// Each key with what its row says.
    pub by_key: StringMap<ReplaceEntry>,
    /// The keys whose parent is the root.
    pub root_keys: StringSet,
    /// Each group with the keys whose parent it is.
    pub group_children: StringMap<StringSet>,
    /// The templates that the rows name.
    pub template_names: StringSet,
}

impl View for ReplaceIndex {
    type V = ReplaceIndexView;

    open spec fn view(&self) -> ReplaceIndexView {
        ReplaceIndexView {
            by_key: self.by_key@.map_values(|e: ReplaceEntry| e@),
            root_keys: self.root_keys.order(),
            groups: self.group_children.keys(),
            children: self.group_children@.map_values(|s: StringSet| s.order()),
            template_names: self.template_names.order(),
        }
    }
}

impl ReplaceIndex {
    /// Nothing occurs twice in any part of the index, and the root is no
    /// group.
    pub open spec fn wf(&self) -> bool {
        &&& self.by_key.wf()
        &&& self.root_keys.wf()
        &&& self.group_children.wf()
        &&& self.group_children.sets_wf()
        &&& self.template_names.wf()
        &&& !self.group_children@.contains_key(root_name())
    }

    /// The index of no rows.
    pub fn new() -> (index: Self)
        ensures
            index.wf(),
            index.by_key.keys() == Seq::<Seq<char>>::empty(),
            index@ == replace_index_of(Seq::empty()),
    {
        let index = ReplaceIndex {
            by_key: StringMap::new(),
            root_keys: StringSet::new(),
            group_children: StringMap::new(),
            template_names: StringSet::new(),
        };
        proof {
            let model = replace_index_of(Seq::empty());
            assert(replace_keys(Seq::empty()) =~= Seq::empty());
            assert(index@.by_key =~= model.by_key);
            assert(index@.children =~= model.children);
        }
        index
    }

    /// Makes `member` a member of `parent`: of the root where `parent` is
    /// its name, else of the group of that name, which is created if need
    /// be.
    pub fn add_member(&mut self, parent: &String, member: String)
        ensures
            old(self).wf() ==> final(self).wf(),
            final(self).by_key == old(self).by_key,
            final(self).template_names == old(self).template_names,
            final(self)@.groups == if parent@ == root_name() {
                old(self)@.groups
            } else {
                with_member(old(self)@.groups, parent@)
            },
            final(self)@.children.dom() == final(self)@.groups.to_set(),
            forall|p: Seq<char>|
                final(self)@.members(p) == if p == parent@ {
                    with_member(old(self)@.members(p), member@)
                } else {
                    old(self)@.members(p)
                },
    {
        let root = "root".to_owned();
        if *parent == root {
            self.root_keys.insert(member);
            assert(self@.children.dom() =~= self@.groups.to_set());
        } else {
            self.group_children.add_member(parent, member);
            proof {
                assert(self@.children.dom() =~= self@.groups.to_set()) by {
                    assert forall|g: Seq<char>| self@.groups.contains(g) implies self@.children.contains_key(g) by {}
                }
                assert forall|p: Seq<char>|
                    self@.members(p) == if p == parent@ {
                        with_member(old(self)@.members(p), member@)
                    } else {
                        old(self)@.members(p)
                    } by {}
            }
        }
    }
}

/// Indexes the replacement rows: each key with what its row says, the keys
/// of the root, each group with its keys, and the templates named. Fails on
/// the first key that repeats an earlier one.
pub fn index_replacements(rows: Vec<Replace>) -> (result: Result<ReplaceIndex, TableError>)
    ensures
        match result {
            Ok(index) => replace_failure(views(rows@)) is None && index.wf() && index@
                == replace_index_of(views(rows@)),
            Err(error) => replace_failure(views(rows@)) == Some(error@),
        },
{
    let ghost all = rows@;
    let ghost rs = views(rows@);
    let ghost keys = replace_keys(rs);
    let mut index = ReplaceIndex::new();
    proof {
        assert(rs.take(0) =~= Seq::empty());
        assert(index.by_key.keys() =~= replace_keys(rs.take(0)));
        assert(index@.children.dom() =~= index@.groups.to_set());
    }
    for row in it: rows
        invariant
            it.seq() == all,
            rs == views(all),
            keys == replace_keys(rs),
            index.wf(),
            index.by_key.keys() == replace_keys(rs.take(it.index() as int)),
            forall|j: int|
                0 <= j < it.index() ==> (#[trigger] index.by_key@[keys[j]])@ == replace_entry(
                    rs[j],
                ),
            forall|j: int| 0 <= j < it.index() ==> (#[trigger] repeats(keys)[j]) is None,
            index@.groups == add_groups(Seq::empty(), replace_parents(rs.take(it.index() as int))),
            index@.children.dom() == index@.groups.to_set(),
            forall|p: Seq<char>|
                index@.members(p) == members_of(replace_pairs(rs.take(it.index() as int)), p),
            index@.template_names == distinct(replace_templates(rs.take(it.index() as int))),
    {
        let ghost i = it.index() as int;
        let ghost before = index;
        proof {
            assert(rs[i] == row@);
            assert(rs.take(i + 1).drop_last() =~= rs.take(i));
            assert(replace_keys(rs.take(i + 1)) =~= replace_keys(rs.take(i)).push(row.string@));
            assert(replace_keys(rs.take(i)) =~= keys.take(i));
            assert(replace_parents(rs.take(i + 1)).drop_last() =~= replace_parents(rs.take(i)));
            assert(replace_pairs(rs.take(i + 1)).drop_last() =~= replace_pairs(rs.take(i)));
            assert(replace_templates(rs.take(i + 1)).drop_last() =~= replace_templates(
                rs.take(i),
            ));
            index.by_key.lemma_position(row.string@);
        }
        if index.by_key.contains_key(&row.string) {
            proof {
                lemma_first_some_at(repeats(keys), i);
            }
            return Err(TableError::DuplicateKey(row.string));
        }
        index.add_member(&row.config_parent, row.string.clone());
        let ghost grouped = index;
        index.template_names.insert(row.template.clone());
        let entry = ReplaceEntry {
            template: row.template,
            mandatory: row.mandatory,
            unique: row.unique,
            config_parent: row.config_parent,
            description: row.description,
        };
        index.by_key.insert(row.string, entry);
        proof {
            assert(index.root_keys == grouped.root_keys);
            assert(index.group_children == grouped.group_children);
            assert(index@.groups == grouped@.groups);
            assert(index@.children == grouped@.children);
            assert forall|p: Seq<char>|
                index@.members(p) == members_of(replace_pairs(rs.take(i + 1)), p) by {
                assert(index@.members(p) == grouped@.members(p));
                assert(before@.members(p) == members_of(replace_pairs(rs.take(i)), p));
            }
            assert forall|j: int| 0 <= j < i + 1 implies (#[trigger] index.by_key@[keys[j]])@
                == replace_entry(rs[j]) by {
                if j < i {
                    assert(keys.take(i)[j] == keys[j]);
                }
            }
        }
    }
    proof {
        let model = replace_index_of(rs);
        assert(rs.take(rs.len() as int) =~= rs);
        lemma_first_some_at(repeats(keys), keys.len() as int);
        assert(index@.by_key =~= model.by_key) by {
            assert forall|k: Seq<char>| keys.contains(k) implies index@.by_key[k]
                == model.by_key[k] by {
                keys.index_of_first_ensures(k);
            }
        }
        assert(index@.children =~= model.children) by {
            assert forall|g: Seq<char>| index@.groups.contains(g) implies index@.children[g]
                == model.children[g] by {
                assert(index@.children.dom().contains(g));
                assert(index@.members(g) == members_of(replace_pairs(rs), g));
            }
        }
        assert(index@.members(root_name()) == members_of(replace_pairs(rs), root_name()));
    }
    Ok(index)
}

/// The file table by name, with the names that each parent holds.
#[derive(Debug)]
pub struct FilesIndex {
    /// Each file name with what its row says.
    pub by_name: StringMap<FilesEntry>,
    /// Each parent, the root among them, with the names of its files.
    pub files_by_group: StringMap<StringSet>,
}

impl View for FilesIndex {
    type V = FilesIndexView;

    open spec fn view(&self) -> FilesIndexView {
        FilesIndexView {
            by_name: self.by_name@.map_values(|e: FilesEntry| e@),
            groups: self.files_by_group.keys(),
            members: self.files_by_group@.map_values(|s: StringSet| s.order()),
        }
    }
}

impl FilesIndex {
    /// Nothing occurs twice in any part of the index.
    pub open spec fn wf(&self) -> bool {
        &&& self.by_name.wf()
        &&& self.files_by_group.wf()
        &&& self.files_by_group.sets_wf()
    }
}

/// Indexes the file rows: each name with what its row says, and the names
/// that each parent holds; then marks each of these parents in the
/// replacement index as holding the reserved member. Fails on the first
/// name that repeats an earlier one, and then leaves the replacement index
/// as it was.
pub fn index_files(rows: Vec<Files>, index: &mut ReplaceIndex) -> (result: Result<
    FilesIndex,
    TableError,
>)
    requires
        old(index).wf(),
    ensures
        match result {
            Ok(files) => {
                &&& files_failure(views(rows@)) is None
                &&& files.wf()
                &&& files@ == files_index_of(views(rows@))
                &&& final(index).wf()
                &&& final(index)@ == with_file_marks(old(index)@, files@.groups)
            },
            Err(error) => files_failure(views(rows@)) == Some(error@) && *final(index) == *old(
                index,
            ),
        },
{
    let ghost all = rows@;
    let ghost fs = views(rows@);
    let ghost names = file_names(fs);
    let mut files = FilesIndex { by_name: StringMap::new(), files_by_group: StringMap::new() };
    proof {
        assert(fs.take(0) =~= Seq::empty());
        assert(files.by_name.keys() =~= file_names(fs.take(0)));
        assert(file_parents(fs.take(0)) =~= Seq::empty());
        assert(file_pairs(fs.take(0)) =~= Seq::empty());
    }
    for row in it: rows
        invariant
            it.seq() == all,
            fs == views(all),
            names == file_names(fs),
            files.wf(),
            files.by_name.keys() == file_names(fs.take(it.index() as int)),
            forall|j: int|
                0 <= j < it.index() ==> (#[trigger] files.by_name@[names[j]])@ == file_entry(fs[j]),
            forall|j: int| 0 <= j < it.index() ==> (#[trigger] repeats(names)[j]) is None,
            files.files_by_group.keys() == distinct(file_parents(fs.take(it.index() as int))),
            forall|g: Seq<char>|
                files.files_by_group.members(g) == members_of(
                    file_pairs(fs.take(it.index() as int)),
                    g,
                ),
    {
        let ghost i = it.index() as int;
        let ghost before = files;
        proof {
            assert(fs[i] == row@);
            assert(fs.take(i + 1).drop_last() =~= fs.take(i));
            assert(file_names(fs.take(i + 1)) =~= file_names(fs.take(i)).push(row.name@));
            assert(file_names(fs.take(i)) =~= names.take(i));
            assert(file_parents(fs.take(i + 1)).drop_last() =~= file_parents(fs.take(i)));
            assert(file_pairs(fs.take(i + 1)).drop_last() =~= file_pairs(fs.take(i)));
        }
        if files.by_name.contains_key(&row.name) {
            proof {
                lemma_first_some_at(repeats(names), i);
            }
            return Err(TableError::DuplicateKey(row.name));
        }
        files.files_by_group.add_member(&row.config_parent, row.name.clone());
        let entry = FilesEntry {
            system: row.system,
            target: row.target,
            description: row.description,
        };
        files.by_name.insert(row.name, entry);
        proof {
            assert forall|g: Seq<char>|
                files.files_by_group.members(g) == members_of(file_pairs(fs.take(i + 1)), g) by {
                assert(before.files_by_group.members(g) == members_of(file_pairs(fs.take(i)), g));
            }
            assert forall|j: int| 0 <= j < i + 1 implies (#[trigger] files.by_name@[names[j]])@
                == file_entry(fs[j]) by {
                if j < i {
                    assert(names.take(i)[j] == names[j]);
                }
            }
        }
    }
    let marker_root = "root".to_owned();
    let ghost start = *index;
    let ghost groups = files.files_by_group.keys();
    let mut at: usize = 0;
    proof {
        assert(groups.take(0) =~= Seq::empty());
        assert(start@.children.dom() =~= start@.groups.to_set());
    }
    while at < files.files_by_group.len()
        invariant
            at <= groups.len(),
            groups == files.files_by_group.keys(),
            index.wf(),
            index.by_key == start.by_key,
            index.template_names == start.template_names,
            index@.groups == add_groups(start@.groups, groups.take(at as int)),
            index@.children.dom() == index@.groups.to_set(),
            forall|p: Seq<char>|
                index@.members(p) == if groups.take(at as int).contains(p) {
                    with_member(start@.members(p), files_name())
                } else {
                    start@.members(p)
                },
        decreases groups.len() - at,
    {
        let ghost current = *index;
        let parent = files.files_by_group.key_at(at);
        index.add_member(parent, "files".to_owned());
        proof {
            let seen = groups.take(at as int);
            let next = groups.take(at + 1);
            assert(next.drop_last() =~= seen);
            assert(next.last() == parent@);
            assert forall|p: Seq<char>|
                index@.members(p) == if next.contains(p) {
                    with_member(start@.members(p), files_name())
                } else {
                    start@.members(p)
                } by {
                assert(current@.members(p) == if seen.contains(p) {
                    with_member(start@.members(p), files_name())
                } else {
                    start@.members(p)
                });
                if seen.contains(p) {
                    let j = choose|j: int| 0 <= j < seen.len() && seen[j] == p;
                    assert(next[j] == p);
                    let held = start@.members(p);
                    if !held.contains(files_name()) {
                        assert(held.push(files_name())[held.len() as int] == files_name());
                    }
                }
                if p == parent@ {
                    assert(next[at as int] == p);
                }
                if next.contains(p) && p != parent@ {
                    let j = choose|j: int| 0 <= j < next.len() && next[j] == p;
                    assert(seen[j] == p);
                }
            }
        }
        at += 1;
    }
    proof {
        let model = files_index_of(fs);
        assert(fs.take(fs.len() as int) =~= fs);
        assert(groups.take(groups.len() as int) =~= groups);
        lemma_first_some_at(repeats(names), names.len() as int);
        assert(files@.by_name =~= model.by_name) by {
            assert forall|n: Seq<char>| names.contains(n) implies files@.by_name[n]
                == model.by_name[n] by {
                names.index_of_first_ensures(n);
            }
        }
        assert(files@.members =~= model.members) by {
            assert forall|g: Seq<char>| groups.contains(g) implies files@.members[g]
                == model.members[g] by {
                assert(files.files_by_group.members(g) == members_of(file_pairs(fs), g));
            }
        }
        let marked = with_file_marks(start@, groups);
        assert(index@.members(root_name()) == marked.root_keys);
        assert(index@.children =~= marked.children) by {
            assert forall|g: Seq<char>| index@.groups.contains(g) implies index@.children[g]
                == marked.children[g] by {
                assert(index@.children.dom().contains(g));
                assert(index@.members(g) == index@.children[g]);
                assert(start@.members(g) == members_in(start@.children, g));
            }
        }
    }
    Ok(files)
}

/// The replacements of `by_key` that name `template`.
fn owned_replacements(by_key: &StringMap<ReplaceEntry>, template: &String) -> (owned: StringMap<
    ReplaceEntry,
>)
    requires
        by_key.wf(),
    ensures
        owned.wf(),
        owned@.map_values(|e: ReplaceEntry| e@) == owned_by(
            by_key@.map_values(|e: ReplaceEntry| e@),
            template@,
        ),
{
    let mut owned: StringMap<ReplaceEntry> = StringMap::new();
    let ghost keys = by_key.keys();
    let mut at: usize = 0;
    while at < by_key.len()
        invariant
            at <= keys.len(),
            keys == by_key.keys(),
            by_key.wf(),
            owned.wf(),
            forall|k: Seq<char>|
                owned@.contains_key(k) <==> keys.take(at as int).contains(k)
                    && by_key@[k].template@ == template@,
            forall|k: Seq<char>| owned@.contains_key(k) ==> owned@[k] == by_key@[k],
        decreases keys.len() - at,
    {
        let key = by_key.key_at(at);
        let entry = by_key.value_at(at);
        proof {
            by_key.lemma_entry(at as int);
            let seen = keys.take(at as int);
            let next = keys.take(at + 1);
            assert(next =~= seen.push(key@));
            assert forall|k: Seq<char>| next.contains(k) <==> seen.contains(k) || k == key@ by {
                if seen.contains(k) {
                    let j = choose|j: int| 0 <= j < seen.len() && seen[j] == k;
                    assert(next[j] == k);
                }
                if k == key@ {
                    assert(next[at as int] == k);
                }
            }
        }
        if entry.template == *template {
            owned.insert(key.clone(), entry.clone());
        }
        at += 1;
    }
    proof {
        assert(keys.take(keys.len() as int) =~= keys);
        assert(owned@.map_values(|e: ReplaceEntry| e@) =~= owned_by(
            by_key@.map_values(|e: ReplaceEntry| e@),
            template@,
        ));
    }
    owned
}

/// Every template of the index owns a well-formed map of replacements.
pub open spec fn templates_wf(templates: StringMap<TemplateEntry>) -> bool {
    &&& templates.wf()
    &&& forall|n: Seq<char>|
        templates@.contains_key(n) ==> (#[trigger] templates@[n]).replacements.wf()
}

/// Indexes the template rows: each name with what its row says and with
/// the replacements of `by_key` that name it. Fails on the first name that
/// repeats an earlier one.
pub fn index_templates(rows: Vec<Template>, by_key: &StringMap<ReplaceEntry>) -> (result: Result<
    StringMap<TemplateEntry>,
    TableError,
>)
    requires
        by_key.wf(),
    ensures
        match result {
            Ok(templates) => {
                &&& templates_failure(views(rows@)) is None
                &&& templates_wf(templates)
                &&& templates.keys() == template_names(views(rows@))
                &&& templates@.map_values(|e: TemplateEntry| e@) == template_index_of(
                    views(rows@),
                    by_key@.map_values(|e: ReplaceEntry| e@),
                )
            },
            Err(error) => templates_failure(views(rows@)) == Some(error@),
        },
{
    let ghost all = rows@;
    let ghost ts = views(rows@);
    let ghost names = template_names(ts);
    let ghost entries = by_key@.map_values(|e: ReplaceEntry| e@);
    let mut templates: StringMap<TemplateEntry> = StringMap::new();
    proof {
        assert(ts.take(0) =~= Seq::empty());
        assert(templates.keys() =~= template_names(ts.take(0)));
    }
    for row in it: rows
        invariant
            it.seq() == all,
            ts == views(all),
            names == template_names(ts),
            entries == by_key@.map_values(|e: ReplaceEntry| e@),
            by_key.wf(),
            templates_wf(templates),
            templates.keys() == template_names(ts.take(it.index() as int)),
            forall|j: int|
                0 <= j < it.index() ==> (#[trigger] templates@[names[j]])@ == template_entry(
                    ts[j],
                    entries,
                ),
            forall|j: int| 0 <= j < it.index() ==> (#[trigger] repeats(names)[j]) is None,
    {
        let ghost i = it.index() as int;
        proof {
            assert(ts[i] == row@);
            assert(template_names(ts.take(i + 1)) =~= template_names(ts.take(i)).push(row.name@));
            assert(template_names(ts.take(i)) =~= names.take(i));
        }
        if templates.contains_key(&row.name) {
            proof {
                lemma_first_some_at(repeats(names), i);
            }
            return Err(TableError::DuplicateKey(row.name));
        }
        let owned = owned_replacements(by_key, &row.name);
        let entry = TemplateEntry {
            system: row.system,
            source: row.source,
            target: row.target,
            description: row.description,
            replacements: owned,
        };
        templates.insert(row.name, entry);
        proof {
            assert forall|j: int| 0 <= j < i + 1 implies (#[trigger] templates@[names[j]])@
                == template_entry(ts[j], entries) by {
                if j < i {
                    assert(names.take(i)[j] == names[j]);
                }
            }
        }
    }
    proof {
        assert(ts.take(ts.len() as int) =~= ts);
        lemma_first_some_at(repeats(names), names.len() as int);
        assert(templates@.map_values(|e: TemplateEntry| e@) =~= template_index_of(ts, entries)) by {
            assert forall|n: Seq<char>| names.contains(n) implies (#[trigger] templates@[n])@
                == template_index_of(ts, entries)[n] by {
                names.index_of_first_ensures(n);
            }
        }
    }
    Ok(templates)
}

} // verus!
