use buildpack_changelog::buildpacks::{
    digest_from_output, first_repository, read_image_repository_metadata, DescriptorErrorKind,
    FindReleasableBuildpacksError, ReadBuildpackDescriptorError,
};
use libcnb_data::buildpack::BuildpackDescriptor;

#[test]
fn test_read_image_repository_metadata() {
    let data = r#"
api = "0.9"

[buildpack]
id = "foo/bar"
version = "0.0.1"

[[stacks]]
id = "*"

[metadata.release.image]
repository = "repository value"
"#;

    let buildpack_descriptor = toml::from_str::<BuildpackDescriptor>(data).unwrap();
    assert_eq!(
        read_image_repository_metadata(&buildpack_descriptor),
        Some("repository value".to_string())
    );
}

#[test]
fn test_read_image_repository_metadata_empty() {
    let data = r#"
api = "0.9"

[buildpack]
id = "foo/bar"
version = "0.0.1"

[[stacks]]
id = "*"
"#;

    let buildpack_descriptor = toml::from_str::<BuildpackDescriptor>(data).unwrap();
    assert_eq!(read_image_repository_metadata(&buildpack_descriptor), None);
}

fn descriptor_with(metadata: &str) -> BuildpackDescriptor {
    let data = format!(
        "api = \"0.9\"\n\n[buildpack]\nid = \"foo/bar\"\nversion = \"0.0.1\"\n\n[[stacks]]\nid = \"*\"\n\n{metadata}"
    );
    toml::from_str::<BuildpackDescriptor>(&data).unwrap()
}

#[test]
fn image_repository_falls_back_to_the_older_key() {
    let descriptor = descriptor_with("[metadata.release.docker]\nrepository = \"old place\"\n");
    assert_eq!(
        read_image_repository_metadata(&descriptor),
        Some("old place".to_string())
    );
}

#[test]
fn image_repository_prefers_the_current_key() {
    let descriptor = descriptor_with(
        "[metadata.release.docker]\nrepository = \"old place\"\n\n[metadata.release.image]\nrepository = \"new place\"\n",
    );
    assert_eq!(
        read_image_repository_metadata(&descriptor),
        Some("new place".to_string())
    );
}

#[test]
fn image_repository_of_another_type_is_absent() {
    let descriptor = descriptor_with("[metadata.release.image]\nrepository = 7\n");
    assert_eq!(read_image_repository_metadata(&descriptor), None);
    let descriptor = descriptor_with("[metadata]\nrelease = \"text\"\n");
    assert_eq!(read_image_repository_metadata(&descriptor), None);
    let descriptor = descriptor_with("[metadata.release]\nimage = \"text\"\n");
    assert_eq!(read_image_repository_metadata(&descriptor), None);
    let descriptor = descriptor_with("[metadata.other]\nkey = \"value\"\n");
    assert_eq!(read_image_repository_metadata(&descriptor), None);
}

#[test]
fn image_repository_skips_a_key_without_repository() {
    let descriptor = descriptor_with(
        "[metadata.release.image]\nname = \"x\"\n\n[metadata.release.docker]\nrepository = \"fallback\"\n",
    );
    assert_eq!(
        read_image_repository_metadata(&descriptor),
        Some("fallback".to_string())
    );
}

#[test]
fn first_repository_tries_keys_in_order() {
    let table: toml::Table = toml::from_str(
        "[one]\nrepository = \"first\"\n\n[two]\nrepository = \"second\"\n\n[three]\nother = 1\n",
    )
    .unwrap();
    assert_eq!(
        first_repository(&table, &vec!["two", "one"]),
        Some("second".to_string())
    );
    assert_eq!(
        first_repository(&table, &vec!["three", "missing", "one"]),
        Some("first".to_string())
    );
    assert_eq!(first_repository(&table, &vec!["three", "missing"]), None);
    assert_eq!(first_repository(&table, &vec![]), None);
}

#[test]
fn digest_is_trimmed_output_of_a_successful_run() {
    assert_eq!(
        digest_from_output(true, "sha256:abc123\n"),
        Some("sha256:abc123".to_string())
    );
    assert_eq!(
        digest_from_output(true, "  \tsha256:abc 123 \r\n\n"),
        Some("sha256:abc 123".to_string())
    );
    assert_eq!(digest_from_output(true, " \n"), Some(String::new()));
    assert_eq!(digest_from_output(false, "sha256:abc123\n"), None);
}

#[test]
fn descriptor_error_messages() {
    let error = ReadBuildpackDescriptorError {
        path: "/a/buildpack.toml".to_string(),
        kind: DescriptorErrorKind::Io,
        source: "No such file".to_string(),
    };
    assert_eq!(
        error.message(),
        "Failed to read buildpack\nPath: /a/buildpack.toml\nError: No such file"
    );
    let error = ReadBuildpackDescriptorError {
        path: "b.toml".to_string(),
        kind: DescriptorErrorKind::Deserialization,
        source: "bad".to_string(),
    };
    assert_eq!(
        error.message(),
        "Failed to deserialize buildpack\nPath: b.toml\nError: bad"
    );
    let error = ReadBuildpackDescriptorError {
        path: "c.toml".to_string(),
        kind: DescriptorErrorKind::Serialization,
        source: "worse".to_string(),
    };
    assert_eq!(
        error.message(),
        "Failed to serialize buildpack\nPath: c.toml\nError: worse"
    );
}

#[test]
fn finding_error_message() {
    let error = FindReleasableBuildpacksError {
        path: "/work".to_string(),
        source: "denied".to_string(),
    };
    assert_eq!(
        error.message(),
        "I/O error while finding buildpacks\nPath: /work\nError: denied"
    );
}
