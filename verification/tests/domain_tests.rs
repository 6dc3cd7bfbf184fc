use pi_server::domain::{is_valid_domain, sort_domains, Domain};

#[test]
fn domain_test1() {
    let mut doms = vec![
        Domain::parse("www.amazon.com").unwrap(),
        Domain::parse("amazon.com").unwrap(),
        Domain::parse("awsamazon.com").unwrap(),
        Domain::parse("uk.awsamazon.com").unwrap(),
        Domain::parse("awsamazon.co.uk").unwrap(),
    ];

    for dom1 in doms.iter() {
        for dom2 in doms.iter() {
            println!(
                "{}[{}] < {}[{}]: {}",
                dom1.name(),
                dom1.len(),
                dom2.name(),
                dom2.len(),
                dom1.subdomain_of(dom2)
            );
        }
    }
    println!("Before: {:?}", doms);
    doms.sort();
    println!("Sorted: {:?}", doms);
    let mut i = 1;
    while i < doms.len() {
        if doms[i].subdomain_of(&doms[i - 1]) {
            doms.remove(i);
        } else {
            i += 1;
        }
    }
    println!("Cleaned: {:?}", doms);
    let names: Vec<String> = doms.iter().map(|d| d.name()).collect();
    assert_eq!(names, vec!["amazon.com", "awsamazon.com", "awsamazon.co.uk"]);
}

#[test]
fn test3() {
    let mut doms = vec![
        Domain::parse("www.amazon.com").unwrap(),
        Domain::parse("facebook.com").unwrap(),
        Domain::parse("portal.facebook.com").unwrap(),
        Domain::parse("uk.awsamazon.com").unwrap(),
        Domain::parse("www.portal.facebook.com").unwrap(),
    ];
    doms.sort();
    println!("{:?}", doms);
    println!("{:?}", doms[1].cmp(&doms[2]));
    println!("{:?}", doms[2].cmp(&doms[1]));
}

#[test]
fn parse_normalizes() {
    let d = Domain::parse("  WWW.Example.COM. ").unwrap();
    assert_eq!(d.name(), "www.example.com");
    assert_eq!(d.len(), 3);
    let labels = d.labels();
    assert_eq!(labels, vec!["com", "example", "www"]);
}

#[test]
fn parse_rejects() {
    assert!(Domain::parse("").is_none());
    assert!(Domain::parse("   ").is_none());
    assert!(Domain::parse(".").is_none());
    assert!(Domain::parse("a..b").is_none());
    assert!(Domain::parse("1.2.3.4").is_none());
    assert!(Domain::parse("bad domain.com").is_none());
    assert!(Domain::parse("ok-name.com").is_some());
    // over-long labels are refused
    let long = "a".repeat(64) + ".com";
    assert!(Domain::parse(&long).is_none());
}

#[test]
fn parent_and_subdomains() {
    let d = Domain::parse("pagead.g.doubleclick.net").unwrap();
    let p = d.parent().unwrap();
    assert_eq!(p.name(), "g.doubleclick.net");
    assert!(d.subdomain_of(&p));
    assert!(!p.subdomain_of(&d));
    assert!(d.subdomain_of(&d));
    assert!(Domain::parse("net").unwrap().parent().is_none());
}

#[test]
fn sort_domains_drops_subsumed() {
    let doms = vec![
        Domain::parse("www.amazon.com").unwrap(),
        Domain::parse("amazon.com").unwrap(),
        Domain::parse("x.www.amazon.com").unwrap(),
        Domain::parse("facebook.com").unwrap(),
    ];
    let sorted = sort_domains(doms);
    let names: Vec<String> = sorted.iter().map(|d| d.name()).collect();
    assert_eq!(names, vec!["amazon.com", "facebook.com"]);
}

#[test]
fn valid_domain_rejects_numeric() {
    assert!(!is_valid_domain("1.2.3.4"));
    assert!(!is_valid_domain("a.12.b"));
    assert!(is_valid_domain("a.b.c"));
    assert!(is_valid_domain("4294967296.com"));
}
