use pwsafe::item::{self, Data, Kind};
use pwsafe::keychain::V3;
use pwsafe::matcher::Matcher;

fn fixture_items() -> Vec<Vec<(Kind, Data)>> {
    let mut v: Vec<Vec<(Kind, Data)>> = Vec::new();

    v.push(vec![
        (Kind::CreateTime, Data::Int(1339168618)),
        (Kind::ModifyTime, Data::Int(1339168764)),
        (Kind::Title, Data::Text("Test eight".to_string())),
        (Kind::Username, Data::Text("user8".to_string())),
        (Kind::Password, Data::Text("my password".to_string())),
        (
            Kind::Notes,
            Data::Text("shift double click action set = run command".to_string()),
        ),
        (Kind::PasswordHistory, Data::Text("1ff00".to_string())),
        (Kind::SClickAction, Data::Short(8)),
    ]);

    v.push(vec![
        (Kind::CreateTime, Data::Int(1311392620)),
        (Kind::AccessTime, Data::Int(1311400802)),
        (Kind::ExpiryTime, Data::Int(1327636140)),
        (Kind::ModifyTime, Data::Int(1311907753)),
        (Kind::Title, Data::Text("Test Four".to_string())),
        (Kind::Username, Data::Text("user4".to_string())),
        (Kind::Password, Data::Text("pass4".to_string())),
        (Kind::PasswordHistory, Data::Text("1ff00".to_string())),
        (
            Kind::PasswordPolicy,
            Data::Text("f00000e001001001001".to_string()),
        ),
    ]);

    v.push(vec![
        (Kind::CreateTime, Data::Int(1311386977)),
        (Kind::AccessTime, Data::Int(1311400799)),
        (Kind::ExpiryTime, Data::Int(1311994130)),
        (Kind::ModifyTime, Data::Int(1311907737)),
        (Kind::Group, Data::Text("Test".to_string())),
        (Kind::Title, Data::Text("Test One".to_string())),
        (Kind::Username, Data::Text("user2".to_string())),
        (Kind::Password, Data::Text("password2".to_string())),
        (Kind::PasswordHistory, Data::Text("1ff00".to_string())),
        (Kind::Autotype, Data::Text("fdas".to_string())),
        (Kind::RunCommand, Data::Text("asdf".to_string())),
    ]);

    v.push(vec![
        (Kind::CreateTime, Data::Int(1339168618)),
        (Kind::ModifyTime, Data::Int(1339168719)),
        (Kind::Title, Data::Text("Test seven".to_string())),
        (Kind::Username, Data::Text("user7".to_string())),
        (Kind::Password, Data::Text("my password".to_string())),
        (Kind::PasswordHistory, Data::Text("1ff00".to_string())),
        (
            Kind::PasswordPolicy,
            Data::Text("f00000c001001001001".to_string()),
        ),
        (Kind::PasswordSymbols, Data::Text("+_-#$%".to_string())),
        (
            Kind::Notes,
            Data::Text("Symbols set for password generation".to_string()),
        ),
    ]);

    v.push(vec![
        (Kind::CreateTime, Data::Int(1311386990)),
        (Kind::AccessTime, Data::Int(1311400798)),
        (Kind::ModifyTime, Data::Int(1311907761)),
        (Kind::Title, Data::Text("Test Two".to_string())),
        (Kind::Username, Data::Text("user3".to_string())),
        (Kind::Password, Data::Text("pass3".to_string())),
        (Kind::PasswordHistory, Data::Text("1ff00".to_string())),
        (
            Kind::PasswordPolicy,
            Data::Text("080000c001001001001".to_string()),
        ),
    ]);

    v.push(vec![
        (Kind::CreateTime, Data::Int(1339362429)),
        (Kind::Group, Data::Text("Test".to_string())),
        (Kind::Title, Data::Text("Test Nine".to_string())),
        (Kind::Username, Data::Text("user9".to_string())),
        (Kind::Password, Data::Text("DoubleClickActionTest".to_string())),
        (Kind::PasswordHistory, Data::Text("1ff00".to_string())),
        (Kind::DClickAction, Data::Short(7)),
    ]);

    v.push(vec![
        (Kind::CreateTime, Data::Int(1339168618)),
        (Kind::ModifyTime, Data::Int(1339168666)),
        (Kind::Title, Data::Text("Test six".to_string())),
        (Kind::Username, Data::Text("user6".to_string())),
        (Kind::Password, Data::Text("my password".to_string())),
        (Kind::PasswordHistory, Data::Text("1ff00".to_string())),
        (Kind::Notes, Data::Text("protected entry".to_string())),
        (Kind::Protected, Data::Byte(49)),
    ]);

    v.push(vec![
        (Kind::CreateTime, Data::Int(1311386913)),
        (Kind::AccessTime, Data::Int(1311400800)),
        (Kind::ModifyTime, Data::Int(1311907724)),
        (Kind::Group, Data::Text("Test".to_string())),
        (Kind::Title, Data::Text("Test One".to_string())),
        (Kind::Username, Data::Text("user1".to_string())),
        (Kind::Password, Data::Text("password1".to_string())),
        (Kind::PasswordHistory, Data::Text("1ff00".to_string())),
        (
            Kind::PasswordPolicy,
            Data::Text("b20000b001001001001".to_string()),
        ),
    ]);

    v.push(vec![
        (Kind::CreateTime, Data::Int(1339168618)),
        (Kind::Title, Data::Text("Test Five".to_string())),
        (Kind::Username, Data::Text("user5".to_string())),
        (Kind::Password, Data::Text("my password".to_string())),
        (Kind::PasswordHistory, Data::Text("1ff00".to_string())),
        (Kind::Notes, Data::Text("email address test".to_string())),
        (Kind::Email, Data::Text("email@bogus.com".to_string())),
    ]);

    v
}

fn build_db(path: &str) -> V3 {
    let mut kc = V3::new(path);
    for entry in fixture_items() {
        let mut it = item::new();
        for (k, d) in entry {
            it.insert(k, d);
        }
        kc.insert(it);
    }
    kc
}

fn fixture_bytes() -> Vec<u8> {
    let mut kc = build_db("simple.psafe3");
    kc.save("bogus12345").expect("save must produce bytes")
}

fn validate(kc: &V3) {
    assert_eq!(kc.len(), 9);
    let expected = fixture_items();
    for (z, entry) in expected.iter().enumerate() {
        let it = &kc.iter()[z];
        for (k, v) in entry.iter() {
            assert_eq!(
                it.get(*k).expect("field must survive the round trip"),
                v,
                "entry {} kind {:?}",
                z,
                k
            );
        }
    }
}

#[test]
fn invalid_db_path() {
    let kc = V3::open("invalid_db_path", &[], "invalid_password");
    assert_eq!(kc.is_some(), false);
}

#[test]
fn invalid_db_password() {
    let bytes = fixture_bytes();
    let kc = V3::open("simple.psafe3", &bytes, "invalid_password");
    assert_eq!(kc.is_some(), false);
}

#[test]
fn valid_db_password() {
    let bytes = fixture_bytes();
    let kc = V3::open("simple.psafe3", &bytes, "bogus12345");
    assert_eq!(kc.is_some(), true);
}

#[test]
fn valid_db_size() {
    let bytes = fixture_bytes();
    let kc = V3::open("simple.psafe3", &bytes, "bogus12345").expect("Invalid password");
    assert_eq!(kc.len(), 9);
}

#[test]
fn valid_db_contents() {
    let bytes = fixture_bytes();
    let kc = V3::open("simple.psafe3", &bytes, "bogus12345").expect("Invalid password");
    validate(&kc);
    let first = &kc.iter()[0];
    assert_eq!(
        first.get(Kind::Title),
        Some(&Data::Text("Test eight".to_string()))
    );
    assert_eq!(
        first.get(Kind::Username),
        Some(&Data::Text("user8".to_string()))
    );
    assert_eq!(first.get(Kind::CreateTime), Some(&Data::Int(1339168618)));
}

#[test]
fn save() {
    let mut kc = build_db("simple2.psafe3");
    let bytes = kc.save("bogus12345").expect("save must produce bytes");
    let kc2 = V3::open("simple2.psafe3", &bytes, "bogus12345").expect("Invalid password");
    validate(&kc2);
}

#[test]
fn save_changes_salt() {
    let mut kc = build_db("salty.psafe3");
    let a = kc.save("pw").expect("save");
    let b = kc.save("pw").expect("save");
    // offsets 4..36 hold the salt; a fresh one is drawn on every save
    assert_ne!(&a[4..36], &b[4..36]);
}

#[test]
fn tamper_body_fails() {
    let bytes = fixture_bytes();
    let mut bad = bytes.clone();
    bad[152] ^= 0x01; // first byte of the encrypted body
    assert!(V3::open("simple.psafe3", &bad, "bogus12345").is_none());
}

#[test]
fn tamper_tag_fails() {
    let bytes = fixture_bytes();
    let mut bad = bytes.clone();
    let last = bad.len() - 1; // inside the stored authentication tag
    bad[last] ^= 0x80;
    assert!(V3::open("simple.psafe3", &bad, "bogus12345").is_none());
}

#[test]
fn tamper_salt_fails() {
    let bytes = fixture_bytes();
    let mut bad = bytes.clone();
    bad[4] ^= 0x01; // salt: the stretched-password hash no longer matches
    assert!(V3::open("simple.psafe3", &bad, "bogus12345").is_none());
}

#[test]
fn tamper_iterations_fails() {
    let bytes = fixture_bytes();
    let mut bad = bytes.clone();
    bad[36] ^= 0x01; // iteration count
    assert!(V3::open("simple.psafe3", &bad, "bogus12345").is_none());
}

#[test]
fn bad_magic_fails() {
    let bytes = fixture_bytes();
    let mut bad = bytes.clone();
    bad[0] = b'X';
    assert!(V3::open("simple.psafe3", &bad, "bogus12345").is_none());
}

#[test]
fn truncated_file_fails() {
    let bytes = fixture_bytes();
    assert!(V3::open("simple.psafe3", &bytes[..151], "bogus12345").is_none());
    // cutting the file before the end marker loses the marker entirely
    assert!(V3::open("simple.psafe3", &bytes[..bytes.len() - 60], "bogus12345").is_none());
}

#[test]
fn names_and_matching() {
    let bytes = fixture_bytes();
    let kc = V3::open("simple.psafe3", &bytes, "bogus12345").expect("Invalid password");
    let names = kc.each();
    assert_eq!(names.len(), 9);
    assert_eq!(names[0], "Test eight");
    assert_eq!(names[2], "Test.Test One");

    let m = Matcher::new("(?i)test").expect("valid pattern");
    let hits = kc.each_re(&m);
    // every fixture entry carries "Test" somewhere in its name
    assert_eq!(hits.len(), 9);
    assert!(hits.contains(&2));

    let upper = Matcher::new("(?i)TEST six").expect("valid pattern");
    let hits = kc.each_re(&upper);
    assert_eq!(hits, vec![6]);

    let dotted = Matcher::new("\\.Test").expect("valid pattern");
    let hits = kc.each_re(&dotted);
    assert_eq!(hits, vec![2, 5, 7]);
}

#[test]
fn bad_pattern_is_rejected() {
    assert!(Matcher::new("(").is_err());
}

#[test]
fn insert_ignores_foreign_kinds() {
    let mut it = item::new();
    it.insert(Kind::End, Data::Raw(Vec::new()));
    it.insert(Kind::Unknown, Data::Raw(vec![1, 2, 3]));
    it.insert(Kind::Version, Data::Short(3)); // header-only kind
    it.insert(Kind::Title, Data::Int(7)); // wrong shape for a text field
    assert_eq!(it.iter().len(), 0);
    it.insert(Kind::Title, Data::Text("ok".to_string()));
    assert_eq!(it.iter().len(), 1);
    assert_eq!(it.get(Kind::Title), Some(&Data::Text("ok".to_string())));
}

#[test]
fn insert_replaces_same_kind() {
    let mut it = item::new();
    it.insert(Kind::Title, Data::Text("first".to_string()));
    it.insert(Kind::Title, Data::Text("second".to_string()));
    assert_eq!(it.iter().len(), 1);
    assert_eq!(it.get(Kind::Title), Some(&Data::Text("second".to_string())));
}

#[test]
fn round_trip_empty_database() {
    let mut kc = V3::new("empty.psafe3");
    let bytes = kc.save("pw").expect("save");
    let kc2 = V3::open("empty.psafe3", &bytes, "pw").expect("open");
    assert_eq!(kc2.len(), 0);
}

#[test]
fn assemble_is_deterministic_and_opens() {
    let kc = build_db("simple3.psafe3");
    let salt = [1u8; 32];
    let k = [2u8; 32];
    let l = [3u8; 32];
    let iv = [4u8; 16];
    let a = kc
        .assemble("bogus12345", &salt, &k, &l, &iv)
        .expect("every fixture entry is writable");
    let b = kc
        .assemble("bogus12345", &salt, &k, &l, &iv)
        .expect("every fixture entry is writable");
    assert_eq!(a, b);
    assert_eq!(&a[0..4], b"PWS3");
    assert_eq!(&a[4..36], &salt);
    assert_eq!(&a[36..40], &[160, 134, 1, 0]); // 100000, little-endian
    assert_eq!(&a[a.len() - 48..a.len() - 32], b"PWS3-EOFPWS3-EOF");
    assert_eq!((a.len() - 200) % 16, 0);
    let kc2 = V3::open("simple3.psafe3", &a, "bogus12345").expect("assembled bytes open");
    validate(&kc2);
}
