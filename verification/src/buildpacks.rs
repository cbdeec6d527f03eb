//! What release automation reads from a buildpack: the image repository in
//! its descriptor, the digest that the registry tool prints, and the texts
//! of the errors met while finding and reading buildpacks.

use crate::text::{chars_of, string_of, text_option_view, trim, trimmed};
use libcnb_data::buildpack::BuildpackDescriptor;
use vstd::prelude::*;

verus! {

/// `libcnb_data::buildpack::BuildpackDescriptor`, taken as it is: nothing
/// is known of what a descriptor holds but what the items below state.
#[verifier::external_type_specification]
#[verifier::external_body]
#[verifier::reject_recursive_types(BM)]
pub struct ExBuildpackDescriptor<BM>(BuildpackDescriptor<BM>);

/// `toml::map::Map`, the type of a TOML table, taken as it is.
#[verifier::external_type_specification]
#[verifier::external_body]
#[verifier::reject_recursive_types(K)]
#[verifier::reject_recursive_types(V)]
pub struct ExTomlMap<K, V>(toml::map::Map<K, V>);

/// `toml::Value`, taken as it is.
#[verifier::external_type_specification]
#[verifier::external_body]
pub struct ExTomlValue(toml::Value);

/// The `metadata` table of a buildpack descriptor, if it has one.
pub uninterp spec fn descriptor_metadata(descriptor: BuildpackDescriptor) -> Option<toml::Table>;

/// The entries of a TOML table, by key.
pub uninterp spec fn table_entries(table: toml::Table) -> Map<Seq<char>, toml::Value>;

/// The table that a TOML value is, if it is one.
pub uninterp spec fn value_table(value: toml::Value) -> Option<toml::Table>;

/// The text that a TOML value is, if it is a string.
pub uninterp spec fn value_text(value: toml::Value) -> Option<Seq<char>>;

/// The `metadata` field of `BuildpackDescriptor`, which both variants of the
/// descriptor hold: the contract names the table in it.
#[verifier::external_body]
fn metadata_table(descriptor: &BuildpackDescriptor) -> (r: Option<&toml::Table>)
    ensures
        match r {
            Some(table) => descriptor_metadata(*descriptor) == Some(*table),
            None => descriptor_metadata(*descriptor) is None,
        },
{
    match descriptor {
        BuildpackDescriptor::Component(component) => component.metadata.as_ref(),
        BuildpackDescriptor::Composite(composite) => composite.metadata.as_ref(),
    }
}

/// `toml::map::Map::get`: the value stored under `key`, or `None` where the
/// table has no such key.
#[verifier::external_body]
fn table_get<'a>(table: &'a toml::Table, key: &str) -> (r: Option<&'a toml::Value>)
    ensures
        match r {
            Some(value) => table_entries(*table).contains_key(key@) && table_entries(
                *table,
            )[key@] == *value,
            None => !table_entries(*table).contains_key(key@),
        },
{
    table.get(key)
}

/// `toml::Value::as_table`: the table for the `Table` variant, `None` for
/// every other variant.
pub assume_specification<'a>[ toml::Value::as_table ](value: &'a toml::Value) -> (r: Option<
    &'a toml::Table,
>)
    ensures
        match r {
            Some(table) => value_table(*value) == Some(*table),
            None => value_table(*value) is None,
        },
;

/// `toml::Value::as_str`: the text for the `String` variant, `None` for
/// every other variant.
pub assume_specification<'a>[ toml::Value::as_str ](value: &'a toml::Value) -> (r: Option<
    &'a str,
>)
    ensures
        match r {
            Some(text) => value_text(*value) == Some(text@),
            None => value_text(*value) is None,
        },
;

/// The table stored under `key`, if the key is there and holds a table.
pub open spec fn subtable(table: toml::Table, key: Seq<char>) -> Option<toml::Table> {
    if table_entries(table).contains_key(key) {
        value_table(table_entries(table)[key])
    } else {
        None
    }
}

/// The text stored under `key`, if the key is there and holds a string.
pub open spec fn text_entry(table: toml::Table, key: Seq<char>) -> Option<Seq<char>> {
    if table_entries(table).contains_key(key) {
        value_text(table_entries(table)[key])
    } else {
        None
    }
}

/// The `repository` text of the table stored under `key`.
pub open spec fn repository_under(release: toml::Table, key: Seq<char>) -> Option<Seq<char>> {
    match subtable(release, key) {
        Some(image) => text_entry(image, "repository"@),
        None => None,
    }
}

/// The repository under the first of `keys` that has one.
pub open spec fn first_repository_spec(release: toml::Table, keys: Seq<Seq<char>>) -> Option<
    Seq<char>,
>
    decreases keys.len(),
{
    if keys.len() == 0 {
        None
    } else {
        match repository_under(release, keys[0]) {
            Some(repository) => Some(repository),
            None => first_repository_spec(release, keys.drop_first()),
        }
    }
}

/// The keys under which the image table has been kept, the current one first.
pub open spec fn image_keys() -> Seq<Seq<char>> {
    seq!["image"@, "docker"@]
}

/// The image repository that a descriptor names:
/// `metadata.release.image.repository`, or the same under the older key
/// `docker`. Anything missing on the way, or of another type, gives `None`.
pub open spec fn image_repository(descriptor: BuildpackDescriptor) -> Option<Seq<char>> {
    match descriptor_metadata(descriptor) {
        Some(metadata) => match subtable(metadata, "release"@) {
            Some(release) => first_repository_spec(release, image_keys()),
            None => None,
        },
        None => None,
    }
}

/// The views of a run of keys.
pub open spec fn keys_view(keys: Seq<&str>) -> Seq<Seq<char>> {
    Seq::new(keys.len(), |i: int| keys[i]@)
}

/// The table stored under `key`, if the key is there and holds a table.
fn get_table<'a>(table: &'a toml::Table, key: &str) -> (r: Option<&'a toml::Table>)
    ensures
        match r {
            Some(found) => subtable(*table, key@) == Some(*found),
            None => subtable(*table, key@) is None,
        },
{
    match table_get(table, key) {
        Some(value) => value.as_table(),
        None => None,
    }
}

/// The text stored under `key`, if the key is there and holds a string.
fn get_text(table: &toml::Table, key: &str) -> (r: Option<String>)
    ensures
        text_option_view(r) == text_entry(*table, key@),
{
    match table_get(table, key) {
        Some(value) => match value.as_str() {
            Some(text) => Some(text.to_owned()),
            None => None,
        },
        None => None,
    }
}

/// Looks the repository up under each of `keys` in turn; the first key that
/// leads to one wins.
pub fn first_repository(release: &toml::Table, keys: &Vec<&str>) -> (r: Option<String>)
    ensures
        text_option_view(r) == first_repository_spec(*release, keys_view(keys@)),
{
    let ghost all = keys_view(keys@);
    let mut i: usize = 0;
    assert(all.skip(0) =~= all);
    while i < keys.len()
        invariant
            i <= keys.len(),
            all == keys_view(keys@),
            first_repository_spec(*release, all) == first_repository_spec(
                *release,
                all.skip(i as int),
            ),
        decreases keys.len() - i,
    {
        proof {
            let here = all.skip(i as int);
            assert(here[0] == keys@[i as int]@);
            assert(here.drop_first() =~= all.skip(i + 1));
        }
        match get_table(release, keys[i]) {
            Some(image) => match get_text(image, "repository") {
                Some(repository) => {
                    return Some(repository);
                },
                None => {},
            },
            None => {},
        }
        i += 1;
    }
    None
}

/// The image repository that a buildpack descriptor names, if it names one.
pub fn read_image_repository_metadata(buildpack_descriptor: &BuildpackDescriptor) -> (r: Option<
    String,
>)
    ensures
        text_option_view(r) == image_repository(*buildpack_descriptor),
{
    match metadata_table(buildpack_descriptor) {
        Some(metadata) => match get_table(metadata, "release") {
            Some(release) => {
                let keys = vec!["image", "docker"];
                assert(keys_view(keys@) =~= image_keys());
                first_repository(release, &keys)
            },
            None => None,
        },
        None => None,
    }
}

/// The digest that the registry tool printed: its output without the
/// white space around it, or `None` where the tool failed.
pub fn digest_from_output(succeeded: bool, stdout: &str) -> (digest: Option<String>)
    ensures
        text_option_view(digest) == if succeeded {
            Some(trim(stdout@))
        } else {
            None
        },
{
    if succeeded {
        let chars = chars_of(stdout);
        let kept = trimmed(&chars);
        Some(string_of(&kept))
    } else {
        None
    }
}

/// Why a buildpack descriptor could not be read.
#[derive(Clone, Copy, Debug, PartialEq, Eq, Structural)]
pub enum DescriptorErrorKind {
    /// The file could not be read.
    Io,
    /// The file holds no descriptor.
    Deserialization,
    /// The descriptor could not be written as TOML.
    Serialization,
}

/// The first line of the text of a descriptor error.
pub open spec fn descriptor_error_title(kind: DescriptorErrorKind) -> Seq<char> {
    match kind {
        DescriptorErrorKind::Io => "Failed to read buildpack"@,
        DescriptorErrorKind::Deserialization => "Failed to deserialize buildpack"@,
        DescriptorErrorKind::Serialization => "Failed to serialize buildpack"@,
    }
}

/// A title, the path and the cause, one to a line.
pub open spec fn error_text(title: Seq<char>, path: Seq<char>, source: Seq<char>) -> Seq<char> {
    title + "\nPath: "@ + path + "\nError: "@ + source
}

/// A title, the path and the cause, one to a line.
fn make_error_text(title: &str, path: &str, source: &str) -> (text: String)
    ensures
        text@ == error_text(title@, path@, source@),
{
    let mut text = String::new();
    text.append(title);
    text.append("\nPath: ");
    text.append(path);
    text.append("\nError: ");
    text.append(source);
    assert(text@ =~= error_text(title@, path@, source@));
    text
}

/// A failure to read the descriptor of a buildpack: the path of the
/// descriptor, the kind of failure, and the text of its cause.
#[derive(Clone, Debug, PartialEq, Eq)]
pub struct ReadBuildpackDescriptorError {
    pub path: String,
    pub kind: DescriptorErrorKind,
    pub source: String,
}

impl ReadBuildpackDescriptorError {
    /// The text shown for this error.
    pub fn message(&self) -> (text: String)
        ensures
            text@ == error_text(descriptor_error_title(self.kind), self.path@, self.source@),
    {
        let title = match self.kind {
            DescriptorErrorKind::Io => "Failed to read buildpack",
            DescriptorErrorKind::Deserialization => "Failed to deserialize buildpack",
            DescriptorErrorKind::Serialization => "Failed to serialize buildpack",
        };
        make_error_text(title, self.path.as_str(), self.source.as_str())
    }
}

/// A failure while looking for buildpacks: the directory where the search
/// started and the text of the cause.
#[derive(Clone, Debug, PartialEq, Eq)]
pub struct FindReleasableBuildpacksError {
    pub path: String,
    pub source: String,
}

impl FindReleasableBuildpacksError {
    /// The text shown for this error.
    pub fn message(&self) -> (text: String)
        ensures
            text@ == error_text(
                "I/O error while finding buildpacks"@,
                self.path@,
                self.source@,
            ),
    {
        make_error_text(
            "I/O error while finding buildpacks",
            self.path.as_str(),
            self.source.as_str(),
        )
    }
}

} // verus!
