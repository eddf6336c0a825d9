use rust_solv::repo::Repo;
use rust_solv::xml::ParseError;

const SAMPLE: &str = "<?xml version=\"1.0\" encoding=\"UTF-8\"?>\n\
    <metadata xmlns=\"http://linux.duke.edu/metadata/common\" \
    xmlns:rpm=\"http://linux.duke.edu/metadata/rpm\" packages=\"2\">\n\
    <!-- two small packages -->\n\
    <package type=\"rpm\">\n\
      <name>alpha</name>\n\
      <arch>x86_64</arch>\n\
      <version epoch=\"1\" ver=\"2.3\" rel=\"4\"/>\n\
      <checksum type=\"sha256\" pkgid=\"YES\">3a9f0d2c3a9f0d2c3a9f0d2c3a9f0d2c3a9f0d2c3a9f0d2c3a9f0d2c3a9f0d2c</checksum>\n\
      <format>\n\
        <rpm:provides>\n\
          <rpm:entry name=\"cap_X\" flags=\"EQ\" epoch=\"0\" ver=\"9\" rel=\"1\"/>\n\
          <rpm:entry name=\"cap_X\"/>\n\
        </rpm:provides>\n\
        <rpm:requires>\n\
          <rpm:entry name=\"beta\"/>\n\
        </rpm:requires>\n\
      </format>\n\
    </package>\n\
    <package type=\"rpm\">\n\
      <name>beta</name>\n\
      <version epoch=\"0\" ver=\"1\" rel=\"1\"/>\n\
      <format/>\n\
    </package>\n\
    </metadata>\n";

#[test]
fn parses_packages_in_document_order() {
    let repo = Repo::from_str(SAMPLE).expect("sample should parse");
    assert_eq!(repo.package_count(), 2);
    assert_eq!(repo.get_package_id_by_name("alpha"), Some(0));
    assert_eq!(repo.get_package_id_by_name("beta"), Some(1));
    assert_eq!(repo.get_package_id_by_name("gamma"), None);
}

#[test]
fn every_package_is_found_under_its_own_name() {
    // self-provide closure over the whole index
    let repo = Repo::from_str(SAMPLE).expect("sample should parse");
    let names: Vec<String> = repo.packages().iter().map(|p| p.name().clone()).collect();
    for name in names {
        assert!(repo.get_package_id_by_name(&name).is_some());
    }
}

#[test]
fn implicit_self_provide_answers_name_requirements() {
    let repo = Repo::from_str(SAMPLE).expect("sample should parse");
    let reqs = repo.get_package_requires_by_id(0).expect("alpha has requires");
    assert_eq!(reqs.len(), 1);
    // the requirement on "beta" is met by beta's implicit self-provide
    let providers = repo.get_entry_provider_id(&reqs[0]).expect("beta provides itself");
    assert_eq!(providers, &vec![1usize]);
}

#[test]
fn duplicate_provides_are_kept_in_insertion_order() {
    let xml = "<metadata><package type=\"rpm\"><name>dup</name>\
        <version epoch=\"0\" ver=\"1\" rel=\"1\"/>\
        <format><rpm:provides>\
        <rpm:entry name=\"cap_X\"/><rpm:entry name=\"cap_X\"/>\
        </rpm:provides></format></package>\
        <package type=\"rpm\"><name>user</name>\
        <version epoch=\"0\" ver=\"1\" rel=\"1\"/>\
        <format><rpm:requires><rpm:entry name=\"cap_X\"/></rpm:requires></format>\
        </package></metadata>";
    let repo = Repo::from_str(xml).expect("duplicates should parse");
    let reqs = repo.get_package_requires_by_id(1).expect("user has requires");
    let providers = repo.get_entry_provider_id(&reqs[0]).expect("cap_X has providers");
    assert_eq!(providers, &vec![0usize, 0usize]);
}

#[test]
fn entry_accessors_expose_the_record() {
    let repo = Repo::from_str(SAMPLE).expect("sample should parse");
    let reqs = repo.get_package_requires_by_id(0).expect("alpha has requires");
    assert_eq!(reqs[0].clone().get_name(), "beta".to_string());
    assert!(repo.get_package_conflicts_by_id(0).is_none());
    assert!(repo.get_package_obsoletes_by_id(0).is_none());
    assert!(repo.get_package_requires_by_id(7).is_none());
}

#[test]
fn lowest_id_wins_for_duplicate_names() {
    let xml = "<metadata>\
        <package type=\"rpm\"><name>twin</name>\
        <version epoch=\"0\" ver=\"1\" rel=\"1\"/><format/></package>\
        <package type=\"rpm\"><name>twin</name>\
        <version epoch=\"0\" ver=\"2\" rel=\"1\"/><format/></package>\
        </metadata>";
    let repo = Repo::from_str(xml).expect("twins should parse");
    assert_eq!(repo.get_package_id_by_name("twin"), Some(0));
}

#[test]
fn missing_name_is_reported() {
    let xml = "<metadata><package type=\"rpm\">\
        <version epoch=\"0\" ver=\"1\" rel=\"1\"/><format/>\
        </package></metadata>";
    assert_eq!(
        Repo::from_str(xml).err(),
        Some(ParseError::MissingField("name".to_string()))
    );
}

#[test]
fn missing_version_is_reported() {
    let xml = "<metadata><package type=\"rpm\"><name>A</name><format/>\
        </package></metadata>";
    assert_eq!(
        Repo::from_str(xml).err(),
        Some(ParseError::MissingField("version".to_string()))
    );
}

#[test]
fn missing_format_is_reported() {
    let xml = "<metadata><package type=\"rpm\"><name>A</name>\
        <version epoch=\"0\" ver=\"1\" rel=\"1\"/>\
        </package></metadata>";
    assert_eq!(
        Repo::from_str(xml).err(),
        Some(ParseError::MissingField("format".to_string()))
    );
}

#[test]
fn bad_epoch_is_reported() {
    let xml = "<metadata><package type=\"rpm\"><name>A</name>\
        <version epoch=\"zero\" ver=\"1\" rel=\"1\"/><format/>\
        </package></metadata>";
    assert_eq!(Repo::from_str(xml).err(), Some(ParseError::BadInteger));
}

#[test]
fn epoch_overflow_is_reported() {
    let xml = "<metadata><package type=\"rpm\"><name>A</name>\
        <version epoch=\"99999999999999999999\" ver=\"1\" rel=\"1\"/><format/>\
        </package></metadata>";
    assert_eq!(Repo::from_str(xml).err(), Some(ParseError::BadInteger));
}

#[test]
fn large_epoch_round_trips() {
    let xml = "<metadata><package type=\"rpm\"><name>A</name>\
        <version epoch=\"18446744073709551615\" ver=\"1\" rel=\"1\"/><format/>\
        </package></metadata>";
    let repo = Repo::from_str(xml).expect("max epoch should parse");
    let out = repo.to_xml();
    assert!(out.contains("epoch=\"18446744073709551615\""));
}

#[test]
fn truncated_document_is_malformed() {
    let xml = "<metadata><package type=\"rpm\"><name>A</name>";
    assert_eq!(Repo::from_str(xml).err(), Some(ParseError::MalformedXml));
}

#[test]
fn empty_text_is_rejected() {
    assert_eq!(Repo::from_str("").err(), Some(ParseError::MalformedXml));
}

#[test]
fn stray_close_tag_is_malformed() {
    let xml = "<metadata></package></metadata>";
    assert!(Repo::from_str(xml).is_err());
}

#[test]
fn entry_without_name_is_reported() {
    let xml = "<metadata><package type=\"rpm\"><name>A</name>\
        <version epoch=\"0\" ver=\"1\" rel=\"1\"/>\
        <format><rpm:provides><rpm:entry flags=\"EQ\"/></rpm:provides></format>\
        </package></metadata>";
    assert_eq!(
        Repo::from_str(xml).err(),
        Some(ParseError::MissingField("name".to_string()))
    );
}

#[test]
fn empty_metadata_parses() {
    let repo = Repo::from_str("<metadata></metadata>").expect("empty metadata");
    assert_eq!(repo.package_count(), 0);
    let repo2 = Repo::from_str("<metadata/>").expect("self-closing metadata");
    assert_eq!(repo2.package_count(), 0);
}

#[test]
fn unknown_elements_and_attributes_are_ignored() {
    let xml = "<metadata><package type=\"rpm\" extra=\"yes\"><name>A</name>\
        <version epoch=\"0\" ver=\"1\" rel=\"1\" junk=\"2\"/>\
        <size package=\"12\" installed=\"30\"/>\
        <location href=\"Packages/a.rpm\"/>\
        <format><rpm:license>MIT</rpm:license>\
        <rpm:provides><rpm:entry name=\"cap\" extra=\"x\"/></rpm:provides></format>\
        </package></metadata>";
    let repo = Repo::from_str(xml).expect("unknown parts are skipped");
    assert_eq!(repo.package_count(), 1);
    assert_eq!(repo.get_package_id_by_name("A"), Some(0));
}

#[test]
fn quoting_and_prefix_quirks_are_accepted() {
    let xml = "<ns:metadata><package type='rpm'><name>A</name>\
        <version epoch = '0' ver = \"1\" rel = '1' />\
        <format><rpm:requires>\
        <rpm:entry name='cap_X'></rpm:entry>\
        </rpm:requires></format>\
        </package></ns:metadata>";
    let repo = Repo::from_str(xml).expect("quirky but well-formed metadata");
    assert_eq!(repo.package_count(), 1);
    let reqs = repo.get_package_requires_by_id(0).expect("requires parsed");
    assert_eq!(reqs[0].clone().get_name(), "cap_X".to_string());
}

#[test]
fn serialization_round_trips() {
    // parse, re-serialize, re-parse: the indices agree
    let repo1 = Repo::from_str(SAMPLE).expect("sample should parse");
    let text1 = repo1.to_xml();
    let repo2 = Repo::from_str(&text1).expect("serialized text should parse");
    assert_eq!(repo1.package_count(), repo2.package_count());
    let text2 = repo2.to_xml();
    assert_eq!(text1, text2);
    // semantically identical: same lookups, same providers
    let reqs1 = repo1.get_package_requires_by_id(0).expect("requires");
    let reqs2 = repo2.get_package_requires_by_id(0).expect("requires");
    assert_eq!(reqs1.len(), reqs2.len());
    assert_eq!(
        repo1.get_entry_provider_id(&reqs1[0]),
        repo2.get_entry_provider_id(&reqs2[0])
    );
}

#[test]
fn serializer_is_deterministic() {
    let repo1 = Repo::from_str(SAMPLE).expect("sample should parse");
    let repo2 = Repo::from_str(SAMPLE).expect("sample should parse");
    assert_eq!(repo1.to_xml(), repo2.to_xml());
}
