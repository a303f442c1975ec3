//! The rows of the three tables, the entries compiled from them, and the
//! mathematical view of each.
use crate::string_map::StringMap;
use std::path::PathBuf;
use vstd::prelude::*;

verus! {

/// `std::path::PathBuf`, carried through as an opaque value.
#[verifier::external_type_specification]
#[verifier::external_body]
pub struct ExPathBuf(std::path::PathBuf);

/// `std::io::Error`, carried through as an opaque value.
#[verifier::external_type_specification]
#[verifier::external_body]
pub struct ExIoError(std::io::Error);

/// `csv::Error`, carried through as an opaque value.
#[verifier::external_type_specification]
#[verifier::external_body]
pub struct ExCsvError(csv::Error);

/// The views of the elements of a sequence, in the same order.
pub open spec fn views<T: View>(s: Seq<T>) -> Seq<T::V> {
    s.map_values(|t: T| t@)
}

/// A row of the replacement table.
#[derive(Debug)]
pub struct Replace {
    pub string: String,
    pub template: String,
    pub mandatory: bool,
    pub unique: bool,
    pub config_parent: String,
    pub description: String,
}

/// The view of a replacement row: its fields, with each string as the
/// sequence of its characters.
pub struct ReplaceView {
    pub string: Seq<char>,
    pub template: Seq<char>,
    pub mandatory: bool,
    pub unique: bool,
    pub config_parent: Seq<char>,
    pub description: Seq<char>,
}

impl View for Replace {
    type V = ReplaceView;

    open spec fn view(&self) -> ReplaceView {
        ReplaceView {
            string: self.string@,
            template: self.template@,
            mandatory: self.mandatory,
            unique: self.unique,
            config_parent: self.config_parent@,
            description: self.description@,
        }
    }
}

/// What the replacement table says of one key.
#[derive(Debug, PartialEq, Eq)]
pub struct ReplaceEntry {
    pub template: String,
    pub mandatory: bool,
    pub unique: bool,
    pub config_parent: String,
    pub description: String,
}

/// The view of what the replacement table says of one key.
pub struct ReplaceEntryView {
    pub template: Seq<char>,
    pub mandatory: bool,
    pub unique: bool,
    pub config_parent: Seq<char>,
    pub description: Seq<char>,
}

impl View for ReplaceEntry {
    type V = ReplaceEntryView;

    open spec fn view(&self) -> ReplaceEntryView {
        ReplaceEntryView {
            template: self.template@,
            mandatory: self.mandatory,
            unique: self.unique,
            config_parent: self.config_parent@,
            description: self.description@,
        }
    }
}

impl Clone for ReplaceEntry {
    fn clone(&self) -> (copy: Self)
        ensures
            copy == *self,
    {
        ReplaceEntry {
            template: self.template.clone(),
            mandatory: self.mandatory,
            unique: self.unique,
            config_parent: self.config_parent.clone(),
            description: self.description.clone(),
        }
    }
}

/// The machine on which a file or a template lands.
#[derive(Debug, Clone, Copy, PartialEq, Eq, Structural)]
pub enum System {
    Guest,
    Host,
}

impl System {
    /// The name of the system in lower case.
    pub open spec fn spec_value(&self) -> Seq<char> {
        match self {
            System::Guest => "guest"@,
            System::Host => "host"@,
        }
    }

    /// The name of the system in lower case.
    pub fn value(&self) -> (name: &'static str)
        ensures
            name@ == self.spec_value(),
    {
        match self {
            System::Guest => "guest",
            System::Host => "host",
        }
    }
}

/// A row of the template table.
#[derive(Debug)]
pub struct Template {
    pub name: String,
    pub system: System,
    pub source: PathBuf,
    pub target: PathBuf,
    pub description: String,
}

/// The view of a template row.
pub struct TemplateView {
    pub name: Seq<char>,
    pub system: System,
    pub source: PathBuf,
    pub target: PathBuf,
    pub description: Seq<char>,
}

impl View for Template {
    type V = TemplateView;

    open spec fn view(&self) -> TemplateView {
        TemplateView {
            name: self.name@,
            system: self.system,
            source: self.source,
            target: self.target,
            description: self.description@,
        }
    }
}

/// A template together with the replacements that it owns.
#[derive(Debug)]
pub struct TemplateEntry {
    pub system: System,
    pub source: PathBuf,
    pub target: PathBuf,
    pub description: String,
    pub replacements: StringMap<ReplaceEntry>,
}

/// The view of a template with its replacements, which are a map from key
/// to the view of the entry.
pub struct TemplateEntryView {
    pub system: System,
    pub source: PathBuf,
    pub target: PathBuf,
    pub description: Seq<char>,
    pub replacements: Map<Seq<char>, ReplaceEntryView>,
}

impl View for TemplateEntry {
    type V = TemplateEntryView;

    open spec fn view(&self) -> TemplateEntryView {
        TemplateEntryView {
            system: self.system,
            source: self.source,
            target: self.target,
            description: self.description@,
            replacements: self.replacements@.map_values(|e: ReplaceEntry| e@),
        }
    }
}

/// A row of the file table.
#[derive(Debug)]
pub struct Files {
    pub name: String,
    pub system: System,
    pub config_parent: String,
    pub target: PathBuf,
    pub description: String,
}

/// The view of a file row.
pub struct FilesView {
    pub name: Seq<char>,
    pub system: System,
    pub config_parent: Seq<char>,
    pub target: PathBuf,
    pub description: Seq<char>,
}

impl View for Files {
    type V = FilesView;

    open spec fn view(&self) -> FilesView {
        FilesView {
            name: self.name@,
            system: self.system,
            config_parent: self.config_parent@,
            target: self.target,
            description: self.description@,
        }
    }
}

/// What the file table says of one file name.
#[derive(Debug, PartialEq, Eq)]
pub struct FilesEntry {
    pub system: System,
    pub target: PathBuf,
    pub description: String,
}

/// The view of what the file table says of one file name.
pub struct FilesEntryView {
    pub system: System,
    pub target: PathBuf,
    pub description: Seq<char>,
}

impl View for FilesEntry {
    type V = FilesEntryView;

    open spec fn view(&self) -> FilesEntryView {
        FilesEntryView {
            system: self.system,
            target: self.target,
            description: self.description@,
        }
    }
}

/// A record that does not belong to the table it was found in.
#[derive(Debug, PartialEq, Eq)]
pub struct ParsingError {
    pub message: String,
    pub cause: String,
}

/// Why no machine description could be compiled.
#[derive(Debug)]
pub enum TableError {
    /// A table could not be read.
    Io(std::io::Error),
    /// A row did not decode into its record type.
    Csv(csv::Error),
    /// A record stands in a table of another kind.
    Parsing(ParsingError),
    /// Two rows of one table share this key.
    DuplicateKey(String),
    /// This name is referred to as a key, and the table it should be in
    /// lacks it.
    OrphanConfigKey(String),
    /// This group is marked as holding files, and no file names it.
    MissingFileGroup(String),
    /// A replacement uses this reserved name as its key.
    ReservedKeyCollision(String),
    /// A replacement names this template, and the template table lacks it.
    UnknownTemplateReference(String),
}

/// The view of a failure: its kind, with the name that it holds as the
/// sequence of its characters.
pub enum TableErrorView {
    Io(std::io::Error),
    Csv(csv::Error),
    Parsing { message: Seq<char>, cause: Seq<char> },
    DuplicateKey(Seq<char>),
    OrphanConfigKey(Seq<char>),
    MissingFileGroup(Seq<char>),
    ReservedKeyCollision(Seq<char>),
    UnknownTemplateReference(Seq<char>),
}

impl View for TableError {
    type V = TableErrorView;

    open spec fn view(&self) -> TableErrorView {
        match self {
            TableError::Io(e) => TableErrorView::Io(*e),
            TableError::Csv(e) => TableErrorView::Csv(*e),
            TableError::Parsing(e) => TableErrorView::Parsing {
                message: e.message@,
                cause: e.cause@,
            },
            TableError::DuplicateKey(k) => TableErrorView::DuplicateKey(k@),
            TableError::OrphanConfigKey(k) => TableErrorView::OrphanConfigKey(k@),
            TableError::MissingFileGroup(k) => TableErrorView::MissingFileGroup(k@),
            TableError::ReservedKeyCollision(k) => TableErrorView::ReservedKeyCollision(k@),
            TableError::UnknownTemplateReference(k) => TableErrorView::UnknownTemplateReference(k@),
        }
    }
}

/// A record of any of the three tables.
#[derive(Debug)]
pub enum Records {
    Replace(Replace),
    Template(Template),
    Files(Files),
}

/// The three tables.
#[derive(Debug, Clone, Copy, PartialEq, Eq, Structural)]
pub enum TableTypes {
    Replace,
    Template,
    Files,
}

/// The records of one table.
pub type Tables = Vec<Records>;

impl TableTypes {
    /// The name under which the table is stored.
    pub open spec fn spec_name(&self) -> Seq<char> {
        match self {
            TableTypes::Files => "files"@,
            TableTypes::Replace => "replace"@,
            TableTypes::Template => "templates"@,
        }
    }

    /// The name under which the table is stored.
    pub fn name(&self) -> (name: &'static str)
        ensures
            name@ == self.spec_name(),
    {
        match self {
            TableTypes::Files => "files",
            TableTypes::Replace => "replace",
            TableTypes::Template => "templates",
        }
    }
}

/// What a leaf of the configuration tree holds: one value or a list.
#[derive(Debug, Clone, Copy, PartialEq, Eq, Structural)]
pub enum ConfigPrimitives {
    Scalar,
    Array,
}

/// A node of the configuration tree: a group of named nodes, or a leaf
/// that holds a value.
#[derive(Debug)]
pub enum ConfigEntry {
    Group { children: StringMap<ConfigEntry>, description: String, mandatory: bool, unique: bool },
    Leaf { value: ConfigPrimitives, mandatory: bool, unique: bool, description: String },
}

/// The view of a node: a group with the map of its children, or a leaf.
pub enum ConfigEntryView {
    Group {
        children: Map<Seq<char>, ConfigEntryView>,
        description: Seq<char>,
        mandatory: bool,
        unique: bool,
    },
    Leaf { value: ConfigPrimitives, mandatory: bool, unique: bool, description: Seq<char> },
}

/// The view of a node: its fields, with the view of each child.
pub open spec fn entry_view(entry: ConfigEntry) -> ConfigEntryView
    decreases entry,
{
    match entry {
        ConfigEntry::Group { children, description, mandatory, unique } => ConfigEntryView::Group {
            children: tree_view(children),
            description: description@,
            mandatory,
            unique,
        },
        ConfigEntry::Leaf { value, mandatory, unique, description } => ConfigEntryView::Leaf {
            value,
            mandatory,
            unique,
            description: description@,
        },
    }
}

/// The view of a map of nodes: the same names, each with its node's view.
pub open spec fn tree_view(tree: StringMap<ConfigEntry>) -> Map<Seq<char>, ConfigEntryView>
    decreases tree,
{
    Map::new(
        |name: Seq<char>| tree@.contains_key(name),
        |name: Seq<char>|
            if tree@.contains_key(name) {
                proof {
                    tree.lemma_value_decreases(name);
                }
                entry_view(tree@[name])
            } else {
                arbitrary()
            },
    )
}

/// In the node and below it, no map holds a name twice.
pub open spec fn entry_wf(entry: ConfigEntry) -> bool
    decreases entry,
{
    match entry {
        ConfigEntry::Group { children, .. } => tree_wf(children),
        ConfigEntry::Leaf { .. } => true,
    }
}

/// In the map and below it, no map holds a name twice.
pub open spec fn tree_wf(tree: StringMap<ConfigEntry>) -> bool
    decreases tree,
{
    &&& tree.wf()
    &&& forall|name: Seq<char>|
        tree@.contains_key(name) ==> {
            proof {
                tree.lemma_value_decreases(name);
            }
            entry_wf(#[trigger] tree@[name])
        }
}

impl View for ConfigEntry {
    type V = ConfigEntryView;

    open spec fn view(&self) -> ConfigEntryView {
        entry_view(*self)
    }
}

/// The compiled description of a machine.
#[derive(Debug)]
pub struct MachineData {
    pub config_keys: StringMap<ConfigEntry>,
    pub templates: StringMap<TemplateEntry>,
    pub files: StringMap<FilesEntry>,
}

/// The view of a description: three maps by name.
pub struct MachineDataView {
    pub config_keys: Map<Seq<char>, ConfigEntryView>,
    pub templates: Map<Seq<char>, TemplateEntryView>,
    pub files: Map<Seq<char>, FilesEntryView>,
}

impl View for MachineData {
    type V = MachineDataView;

    open spec fn view(&self) -> MachineDataView {
        MachineDataView {
            config_keys: tree_view(self.config_keys),
            templates: self.templates@.map_values(|e: TemplateEntry| e@),
            files: self.files@.map_values(|e: FilesEntry| e@),
        }
    }
}

impl MachineData {
    /// No map of the description holds a name twice.
    pub open spec fn wf(&self) -> bool {
        &&& tree_wf(self.config_keys)
        &&& self.templates.wf()
        &&& self.files.wf()
        &&& forall|name: Seq<char>|
            self.templates@.contains_key(name) ==> (#[trigger] self.templates@[name]).replacements.wf()
    }
}

} // verus!
