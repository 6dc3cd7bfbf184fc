use pi_server::domain::Domain;
use pi_server::name_trie::NameTrie;
use pi_server::trie::Trie;

fn rules(list: &[(&str, bool)]) -> Vec<(String, bool)> {
    list.iter().map(|(s, b)| (s.to_string(), *b)).collect()
}

#[test]
fn test_create() {
    let trie = NameTrie::create(&rules(&[
        ("www.amazon.com", false),
        ("amazon.com", true),
        ("www.facebook.com", false),
        ("my-cdn.google.com", false),
    ]));
    println!("Count {}", trie.count());
    assert_eq!(trie.count(), 3);
}

#[test]
fn test_check() {
    let trie = NameTrie::create(&rules(&[
        ("www.amazon.com", false),
        ("amazon.com", true),
        ("www.facebook.com", false),
        ("my-cdn.google.com", false),
    ]));
    let check = |name: &str| trie.check(&Domain::parse(name).unwrap());
    println!("{:?}", check("my-cdn.google.com"));
    assert_eq!(check("my-cdn.google.com"), Some((false, "my-cdn.google.com".to_string())));
    assert_eq!(check("my-cdn.amazon.com"), Some((true, "amazon.com".to_string())));
    assert_eq!(check("www.amazon.com"), Some((true, "amazon.com".to_string())));
    assert_eq!(check("facebook.com"), None);
    assert_eq!(
        check("loda.lahsun.www.facebook.com"),
        Some((false, "www.facebook.com".to_string()))
    );
}

fn name(url: &str) -> Domain {
    Domain::parse(url).unwrap()
}

#[test]
fn trie_test() {
    let mut trie = Trie::new();
    trie.push(&name("star.c10r.facebook.com."));
    trie.push(&name("star.c10r.facebook.com."));
    trie.push(&name("www.amazon.com"));
    trie.push(&name("amazon.com"));
    trie.push(&name("amazon.co.uk"));
    trie.push(&name("www.amazon.co.uk"));

    println!("Count: {}", trie.len());

    assert_eq!(trie.contains(&name("com")), false);
    assert_eq!(trie.contains(&name("amazon.com")), true);
    assert_eq!(trie.contains(&name("www5.amazon.com")), true);
    assert_eq!(trie.contains(&name("portal.amazon.com")), true);
    assert_eq!(trie.contains(&name("portal.aws.amazon.com")), true);
    assert_eq!(trie.contains(&name("facebook.com")), false);
}

#[test]
fn trie_shrink_keeps_contents() {
    let mut trie = Trie::new();
    trie.push(&name("ads.example.com"));
    trie.push(&name("doubleclick.net"));
    trie.shrink();
    assert!(trie.contains(&name("ads.example.com")));
    assert!(trie.contains(&name("x.doubleclick.net")));
    assert!(!trie.contains(&name("example.com")));
    assert_eq!(trie.len(), 2);
}

#[test]
fn push_covered_keeps_len() {
    let mut trie = Trie::new();
    assert_eq!(trie.len(), 0);
    trie.push(&name("ads.example.com"));
    assert_eq!(trie.len(), 1);
    // a repeated push, and a push of an already covered subdomain,
    // leave the count where it was
    trie.push(&name("ads.example.com"));
    assert_eq!(trie.len(), 1);
    trie.push(&name("x.ads.example.com"));
    assert_eq!(trie.len(), 1);
    assert!(trie.contains(&name("x.ads.example.com")));
}

#[test]
fn trie_dump_sorted() {
    let mut trie = Trie::new();
    trie.push(&name("www.amazon.com"));
    trie.push(&name("amazon.com"));
    trie.push(&name("amazon.co.uk"));
    // names come out in walk order (root label first), sorted
    assert_eq!(trie.dump(), "com.amazon\nuk.co.amazon");
    assert_eq!(Trie::new().dump(), "");
}

#[test]
fn name_trie_allow_under_block() {
    // a deeper allow terminal wins over a shallower block
    let trie = NameTrie::create(&rules(&[("net", false), ("safe.net", true)]));
    let check = |n: &str| trie.check(&Domain::parse(n).unwrap());
    assert_eq!(check("x.net"), Some((false, "net".to_string())));
    assert_eq!(check("a.safe.net"), Some((true, "safe.net".to_string())));
}

#[test]
fn name_trie_block_under_allow_is_dropped() {
    // a block below an allow terminal is subsumed and never inserted
    let trie = NameTrie::create(&rules(&[("good.org", true), ("bad.good.org", false)]));
    let check = |n: &str| trie.check(&Domain::parse(n).unwrap());
    assert_eq!(check("bad.good.org"), Some((true, "good.org".to_string())));
}
