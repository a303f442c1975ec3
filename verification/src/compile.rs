//! The compiler: from the rows of the three tables to the description of
//! the machine, or to the first failure.
use crate::index::{index_files, index_replacements, index_templates};
use crate::model::{
    distinct, file_parents, files_failure, files_index_of, first_some, lemma_first_some_at,
    replace_failure, replace_index_of, template_index_of, template_names, templates_failure,
    with_file_marks, ReplaceIndexView,
};
use crate::tree::{build_config_tree, tree_failure, tree_of};
use crate::types::{
    views, Files, FilesView, MachineData, MachineDataView, ParsingError, Records, Replace,
    ReplaceView, TableError, TableErrorView, TableTypes, Template, TemplateView,
};
use vstd::prelude::*;

verus! {

/// The grouping that the rows of both tables declare: that of the
/// replacement rows, with the parents of the file rows marked.
pub open spec fn grouping_of(replacements: Seq<ReplaceView>, files: Seq<FilesView>) -> ReplaceIndexView {
    with_file_marks(replace_index_of(replacements), distinct(file_parents(files)))
}

/// `result` is the outcome of compiling the three tables: the description
/// that they compile to, well formed, where nothing fails; else the
/// failure.
pub open spec fn compiles_to(
    replacements: Seq<ReplaceView>,
    files: Seq<FilesView>,
    templates: Seq<TemplateView>,
    result: Result<MachineData, TableError>,
) -> bool {
    match result {
        Ok(data) => {
            &&& compile_failure(replacements, files, templates) is None
            &&& data.wf()
            &&& data@ == schema_of(replacements, files, templates)
        },
        Err(error) => compile_failure(replacements, files, templates) == Some(error@),
    }
}

/// Why the three tables do not compile, if they do not: the first key
/// that occurs twice among the replacements, else among the files, else
/// among the templates; else the first reference that does not resolve.
pub open spec fn compile_failure(
    replacements: Seq<ReplaceView>,
    files: Seq<FilesView>,
    templates: Seq<TemplateView>,
) -> Option<TableErrorView> {
    if replace_failure(replacements) is Some {
        replace_failure(replacements)
    } else if files_failure(files) is Some {
        files_failure(files)
    } else if templates_failure(templates) is Some {
        templates_failure(templates)
    } else {
        tree_failure(
            grouping_of(replacements, files),
            files_index_of(files),
            template_names(templates).to_set(),
        )
    }
}

/// What the three tables compile to: the configuration tree, each template
/// with the replacements that name it, and each file by name.
pub open spec fn schema_of(
    replacements: Seq<ReplaceView>,
    files: Seq<FilesView>,
    templates: Seq<TemplateView>,
) -> MachineDataView {
    MachineDataView {
        config_keys: tree_of(grouping_of(replacements, files), files_index_of(files)),
        templates: template_index_of(templates, replace_index_of(replacements).by_key),
        files: files_index_of(files).by_name,
    }
}

/// Compiles the rows of the three tables into the description of the
/// machine. The first failure ends the compilation: a key that occurs
/// twice in its table, or a reference that does not resolve.
pub fn process_relations(
    replace_table: Vec<Replace>,
    files_table: Vec<Files>,
    template_table: Vec<Template>,
) -> (result: Result<MachineData, TableError>)
    ensures
        compiles_to(views(replace_table@), views(files_table@), views(template_table@), result),
{
    let mut index = match index_replacements(replace_table) {
        Ok(index) => index,
        Err(error) => {
            return Err(error);
        },
    };
    let files = match index_files(files_table, &mut index) {
        Ok(files) => files,
        Err(error) => {
            return Err(error);
        },
    };
    let templates = match index_templates(template_table, &index.by_key) {
        Ok(templates) => templates,
        Err(error) => {
            return Err(error);
        },
    };
    proof {
        assert(templates@.dom() =~= template_names(views(template_table@)).to_set());
    }
    let config_keys = match build_config_tree(&index, &files, &templates) {
        Ok(tree) => tree,
        Err(error) => {
            return Err(error);
        },
    };
    Ok(MachineData { config_keys, templates, files: files.by_name })
}

/// The table that a record belongs to.
pub open spec fn record_table(record: Records) -> TableTypes {
    match record {
        Records::Replace(_) => TableTypes::Replace,
        Records::Template(_) => TableTypes::Template,
        Records::Files(_) => TableTypes::Files,
    }
}

/// What is said of a table that holds a record of another table.
pub open spec fn mislabeled_message(table: TableTypes) -> Seq<char> {
    match table {
        TableTypes::Replace => "Error reading Replace table. It appears to be mislabeled as such. Aborting."@,
        TableTypes::Files => "Error reading Files table. It appears to be mislabeled as such. Aborting."@,
        TableTypes::Template => "Error reading Templates table. It appears to be mislabeled as such. Aborting."@,
    }
}

/// For each record of `records`: the failure it makes where it does not
/// belong to `table`, which names the table it does belong to as the cause.
pub open spec fn misplaced(records: Seq<Records>, table: TableTypes) -> Seq<Option<TableErrorView>> {
    Seq::new(
        records.len(),
        |i: int|
            if record_table(records[i]) == table {
                None
            } else {
                Some(
                    TableErrorView::Parsing {
                        message: mislabeled_message(table),
                        cause: record_table(records[i]).spec_name(),
                    },
                )
            },
    )
}

/// The failure that stands for a record of `found` in the table `table`.
fn mislabeled(table: TableTypes, found: TableTypes) -> (error: TableError)
    ensures
        error@ == (TableErrorView::Parsing {
            message: mislabeled_message(table),
            cause: found.spec_name(),
        }),
{
    let message = match table {
        TableTypes::Replace => "Error reading Replace table. It appears to be mislabeled as such. Aborting.",
        TableTypes::Files => "Error reading Files table. It appears to be mislabeled as such. Aborting.",
        TableTypes::Template => "Error reading Templates table. It appears to be mislabeled as such. Aborting.",
    };
    TableError::Parsing(ParsingError { message: message.to_owned(), cause: found.name().to_owned() })
}

/// The rows of a table of replacement records; fails on the first record
/// of another table.
pub fn replace_rows(records: Vec<Records>) -> (result: Result<Vec<Replace>, TableError>)
    ensures
        match result {
            Ok(rows) => {
                &&& first_some(misplaced(records@, TableTypes::Replace)) is None
                &&& rows@.len() == records@.len()
                &&& forall|i: int|
                    0 <= i < rows@.len() ==> records@[i] == Records::Replace(#[trigger] rows@[i])
            },
            Err(error) => first_some(misplaced(records@, TableTypes::Replace)) == Some(error@),
        },
{
    let ghost all = records@;
    let ghost options = misplaced(records@, TableTypes::Replace);
    let mut rows: Vec<Replace> = Vec::new();
    for record in it: records
        invariant
            it.seq() == all,
            options == misplaced(all, TableTypes::Replace),
            rows@.len() == it.index(),
            forall|j: int| 0 <= j < it.index() ==> (#[trigger] options[j]) is None,
            forall|j: int| 0 <= j < it.index() ==> all[j] == Records::Replace(#[trigger] rows@[j]),
    {
        match record {
            Records::Replace(row) => {
                rows.push(row);
            },
            Records::Template(_) => {
                proof {
                    lemma_first_some_at(options, it.index() as int);
                }
                return Err(mislabeled(TableTypes::Replace, TableTypes::Template));
            },
            Records::Files(_) => {
                proof {
                    lemma_first_some_at(options, it.index() as int);
                }
                return Err(mislabeled(TableTypes::Replace, TableTypes::Files));
            },
        }
    }
    proof {
        lemma_first_some_at(options, options.len() as int);
    }
    Ok(rows)
}

/// The rows of a table of file records; fails on the first record of
/// another table.
pub fn files_rows(records: Vec<Records>) -> (result: Result<Vec<Files>, TableError>)
    ensures
        match result {
            Ok(rows) => {
                &&& first_some(misplaced(records@, TableTypes::Files)) is None
                &&& rows@.len() == records@.len()
                &&& forall|i: int|
                    0 <= i < rows@.len() ==> records@[i] == Records::Files(#[trigger] rows@[i])
            },
            Err(error) => first_some(misplaced(records@, TableTypes::Files)) == Some(error@),
        },
{
    let ghost all = records@;
    let ghost options = misplaced(records@, TableTypes::Files);
    let mut rows: Vec<Files> = Vec::new();
    for record in it: records
        invariant
            it.seq() == all,
            options == misplaced(all, TableTypes::Files),
            rows@.len() == it.index(),
            forall|j: int| 0 <= j < it.index() ==> (#[trigger] options[j]) is None,
            forall|j: int| 0 <= j < it.index() ==> all[j] == Records::Files(#[trigger] rows@[j]),
    {
        match record {
            Records::Files(row) => {
                rows.push(row);
            },
            Records::Template(_) => {
                proof {
                    lemma_first_some_at(options, it.index() as int);
                }
                return Err(mislabeled(TableTypes::Files, TableTypes::Template));
            },
            Records::Replace(_) => {
                proof {
                    lemma_first_some_at(options, it.index() as int);
                }
                return Err(mislabeled(TableTypes::Files, TableTypes::Replace));
            },
        }
    }
    proof {
        lemma_first_some_at(options, options.len() as int);
    }
    Ok(rows)
}

/// The rows of a table of template records; fails on the first record of
/// another table.
pub fn template_rows(records: Vec<Records>) -> (result: Result<Vec<Template>, TableError>)
    ensures
        match result {
            Ok(rows) => {
                &&& first_some(misplaced(records@, TableTypes::Template)) is None
                &&& rows@.len() == records@.len()
                &&& forall|i: int|
                    0 <= i < rows@.len() ==> records@[i] == Records::Template(#[trigger] rows@[i])
            },
            Err(error) => first_some(misplaced(records@, TableTypes::Template)) == Some(error@),
        },
{
    let ghost all = records@;
    let ghost options = misplaced(records@, TableTypes::Template);
    let mut rows: Vec<Template> = Vec::new();
    for record in it: records
        invariant
            it.seq() == all,
            options == misplaced(all, TableTypes::Template),
            rows@.len() == it.index(),
            forall|j: int| 0 <= j < it.index() ==> (#[trigger] options[j]) is None,
            forall|j: int| 0 <= j < it.index() ==> all[j] == Records::Template(#[trigger] rows@[j]),
    {
        match record {
            Records::Template(row) => {
                rows.push(row);
            },
            Records::Replace(_) => {
                proof {
                    lemma_first_some_at(options, it.index() as int);
                }
                return Err(mislabeled(TableTypes::Template, TableTypes::Replace));
            },
            Records::Files(_) => {
                proof {
                    lemma_first_some_at(options, it.index() as int);
                }
                return Err(mislabeled(TableTypes::Template, TableTypes::Files));
            },
        }
    }
    proof {
        lemma_first_some_at(options, options.len() as int);
    }
    Ok(rows)
}

} // verus!
