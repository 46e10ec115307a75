use lethe::scheme::{Pass, SchemeRepo};

#[test]
fn builtin_schemes_have_their_passes() {
    let repo = SchemeRepo::new();
    assert_eq!(repo.find("zero").unwrap().passes, vec![Pass::Fill(0x00)]);
    assert_eq!(repo.find("one").unwrap().passes, vec![Pass::Fill(0xFF)]);
    assert_eq!(repo.find("random").unwrap().passes, vec![Pass::Random]);
    assert_eq!(repo.find("random2x").unwrap().passes, vec![Pass::Random, Pass::Random]);
    assert_eq!(repo.find("gost").unwrap().passes, vec![Pass::Fill(0x00), Pass::Random]);
    assert_eq!(
        repo.find("dod").unwrap().passes,
        vec![Pass::Fill(0x00), Pass::Fill(0xFF), Pass::Random]
    );
    assert_eq!(
        repo.find("vsitr").unwrap().passes,
        vec![
            Pass::Fill(0x00),
            Pass::Fill(0xFF),
            Pass::Fill(0x00),
            Pass::Fill(0xFF),
            Pass::Fill(0x00),
            Pass::Fill(0xFF),
            Pass::Random,
        ]
    );
}

#[test]
fn unknown_scheme_is_absent() {
    let repo = SchemeRepo::new();
    assert!(repo.find("").is_none());
    assert!(repo.find("Zero").is_none());
    assert!(repo.find("random3x").is_none());
}

#[test]
fn all_lists_every_scheme_once() {
    let repo = SchemeRepo::new();
    let keys: Vec<&str> = repo.all().iter().map(|(k, _)| k.as_str()).collect();
    assert_eq!(keys, vec!["zero", "one", "random", "random2x", "gost", "dod", "vsitr"]);
}
