use vstd::prelude::*;
use vstd::string::StringExecFns;
use vstd::string::StringSliceAdditionalSpecFns;
use vstd::utf8::encode_utf8;
use crate::domain::{ascii_chars, join_dots, Domain};
use crate::trie::{prefix_of, Trie};

verus! {

#[verifier::external_type_specification]
#[verifier::external_body]
pub struct ExRegexSet(regex::RegexSet);

/// The pattern strings a compiled set was built from.
pub uninterp spec fn regex_set_patterns(rs: regex::RegexSet) -> Seq<Seq<char>>;

/// Whether the regex engine accepts `pattern` as a valid expression.
pub uninterp spec fn regex_valid(pattern: Seq<char>) -> bool;

/// Whether `pattern` matches somewhere in `input`, as the regex engine
/// decides it; a function of the two strings alone.
pub uninterp spec fn regex_match(pattern: Seq<char>, input: Seq<char>) -> bool;

/// Relies on regex::Regex::new: compilation succeeds exactly on valid
/// patterns, a function of the pattern alone.
#[verifier::external_body]
pub fn regex_compiles(pattern: &str) -> (r: bool)
    ensures
        r == regex_valid(pattern@),
{
    regex::Regex::new(pattern).is_ok()
}

/// Whether the regex engine compiles this run of patterns into one
/// set; a function of the pattern list alone. It can fail even when
/// every pattern compiles on its own, as the engine's size limit is
/// checked against the one program built from all of them together.
pub uninterp spec fn regex_set_valid(patterns: Seq<Seq<char>>) -> bool;

/// Relies on regex::RegexSet::new: compilation succeeds exactly on the
/// lists the engine accepts, a function of the list alone, and the set
/// returned holds exactly the given patterns.
#[verifier::external_body]
fn regex_set_new(patterns: &Vec<String>) -> (r: Option<regex::RegexSet>)
    ensures
        (r is Some) == regex_set_valid(patterns@.map_values(|p: String| p@)),
        r matches Some(s) ==> regex_set_patterns(s) == patterns@.map_values(|p: String| p@),
{
    regex::RegexSet::new(patterns).ok()
}

/// Relies on regex::RegexSet::matches: the indices of exactly the
/// patterns that match, ascending.
#[verifier::external_body]
fn regex_set_matches(rs: &regex::RegexSet, input: &str) -> (r: Vec<usize>)
    ensures
        forall|k: int| 0 <= k < r@.len() ==> r@[k] < regex_set_patterns(*rs).len()
            && regex_match(regex_set_patterns(*rs)[#[trigger] r@[k] as int], input@),
        forall|i: int| 0 <= i < regex_set_patterns(*rs).len() && regex_match(
            #[trigger] regex_set_patterns(*rs)[i],
            input@,
        ) ==> exists|k: int| 0 <= k < r@.len() && r@[k] == i,
        forall|k1: int, k2: int| 0 <= k1 < k2 < r@.len() ==> r@[k1] < r@[k2],
{
    rs.matches(input).into_iter().collect()
}

/// A policy rule as the operator stores it.
#[derive(Debug)]
pub struct Rule {
    pub expr: String,
    pub is_regex: bool,
    pub is_allow: bool,
    pub enabled: bool,
    pub created_at: i64,
}

/// An enabled regex rule whose pattern compiles.
pub open spec fn rule_regex_ok(r: Rule) -> bool {
    r.enabled && r.is_regex && regex_valid(r.expr@)
}

/// An enabled domain rule whose expression parses as a domain.
pub open spec fn rule_domain_ok(r: Rule) -> bool {
    r.enabled && !r.is_regex && crate::domain::valid_domain_bytes(encode_utf8(r.expr@))
}

/// The canonical reverse-label form of a domain rule's expression.
pub open spec fn rule_labels(r: Rule) -> Seq<Seq<u8>> {
    crate::domain::domain_labels_of(encode_utf8(r.expr@)).reverse()
}

/// The pattern list the regex group is compiled from: the enabled
/// regex rules whose patterns compile, in order.
pub open spec fn regex_exprs(rules: Seq<Rule>) -> Seq<Seq<char>> {
    rules.filter(|r: Rule| rule_regex_ok(r)).map_values(|r: Rule| r.expr@)
}

/// All bytes below 128.
pub open spec fn seq_ascii(s: Seq<u8>) -> bool {
    forall|i: int| 0 <= i < s.len() ==> #[trigger] s[i] < 128
}

/// The enabled flag of a rule line: a leading '#' disables it.
pub open spec fn rule_flags(s: Seq<u8>) -> (bool, Seq<u8>) {
    let t = crate::domain::trim_spec(s);
    if t.len() > 0 && t[0] == 35 {
        (false, crate::domain::trim_spec(t.skip(1)))
    } else {
        (true, t)
    }
}

/// The kind of a rule line: a leading '*' makes it a regex rule.
pub open spec fn rule_kind(s: Seq<u8>) -> (bool, Seq<u8>) {
    if s.len() > 0 && s[0] == 42 {
        (true, crate::domain::trim_spec(s.skip(1)))
    } else {
        (false, s)
    }
}

/// Read one operator rule line: '#' disables, '*' marks a regex; the
/// expression is lowercased and must compile as a regex or parse as a
/// domain, by its kind. Only plain ASCII rules are accepted.
pub fn extract_filter(rule: &str, is_allow: bool, created_at: i64) -> (r: Option<Rule>)
    ensures
        ({
            let flags = rule_flags(rule.spec_bytes());
            let kind = rule_kind(flags.1);
            let expr = crate::domain::lower_seq(kind.1);
            match r {
                Some(p) => {
                    &&& p.enabled == flags.0
                    &&& p.is_regex == kind.0
                    &&& p.is_allow == is_allow
                    &&& p.created_at == created_at
                    &&& p.expr@ == crate::domain::ascii_chars(expr)
                    &&& seq_ascii(expr)
                    &&& (kind.0 ==> regex_valid(crate::domain::ascii_chars(expr)))
                    &&& (!kind.0 ==> crate::domain::valid_domain_bytes(expr))
                },
                None => !(seq_ascii(expr) && (if kind.0 {
                    regex_valid(crate::domain::ascii_chars(expr))
                } else {
                    crate::domain::valid_domain_bytes(expr)
                })),
            }
        }),
{
    let raw = rule.as_bytes_vec();
    let trimmed = crate::domain::trim_bytes(&raw);
    let (enabled, rest): (bool, Vec<u8>) = if trimmed.len() > 0 && trimmed[0] == 35 {
        let cut = crate::domain::copy_range(&trimmed, 1, trimmed.len());
        proof {
            assert(cut@ == trimmed@.skip(1));
        }
        (false, crate::domain::trim_bytes(&cut))
    } else {
        (true, trimmed)
    };
    proof {
        assert(rule_flags(rule.spec_bytes()) == (enabled, rest@));
    }
    let (is_regex, body): (bool, Vec<u8>) = if rest.len() > 0 && rest[0] == 42 {
        let cut = crate::domain::copy_range(&rest, 1, rest.len());
        proof {
            assert(cut@ == rest@.skip(1));
        }
        (true, crate::domain::trim_bytes(&cut))
    } else {
        (false, rest)
    };
    let expr = crate::domain::lower_bytes(&body);
    let mut i: usize = 0;
    while i < expr.len()
        invariant
            i <= expr@.len(),
            expr@ == crate::domain::lower_seq(rule_kind(rule_flags(rule.spec_bytes()).1).1),
            forall|k: int| 0 <= k < i ==> #[trigger] expr@[k] < 128,
        decreases expr@.len() - i,
    {
        if expr[i] >= 128 {
            proof {
                assert(!seq_ascii(expr@)) by {
                    assert(expr@[i as int] >= 128);
                }
            }
            return None;
        }
        i += 1;
    }
    let expr_str = crate::domain::ascii_string(&expr);
    if is_regex {
        if regex_compiles(expr_str.as_str()) {
            Some(Rule { expr: expr_str, is_regex, is_allow, enabled, created_at })
        } else {
            None
        }
    } else {
        match Domain::parse_bytes(&expr) {
            Some(_) => Some(Rule { expr: expr_str, is_regex, is_allow, enabled, created_at }),
            None => None,
        }
    }
}

/// The display form of a rule for the operator page: disabled rules
/// prefixed '# ', regex rules prefixed '* '.
pub fn rule_display(rule: &Rule) -> (r: String)
    ensures
        r@ == (if !rule.enabled {
            "# "@
        } else {
            Seq::<char>::empty()
        }) + (if rule.is_regex {
            "* "@
        } else {
            Seq::<char>::empty()
        }) + rule.expr@,
{
    let mut out = String::from_str("");
    proof {
        reveal_strlit("");
        assert(out@ =~= Seq::<char>::empty());
    }
    if !rule.enabled {
        out.append("# ");
    }
    if rule.is_regex {
        out.append("* ");
    }
    out.append(rule.expr.as_str());
    out
}

/// One named rule group: a batch-compiled pattern set matched against
/// the display name, or a reverse-label trie matched with ancestors.
/// A pattern group whose set the engine refused to compile matches
/// nothing.
pub enum FilterKind {
    Pattern { set: Option<regex::RegexSet>, patterns: Vec<String> },
    Domains { trie: Trie },
}

/// An ordered list of named rule groups, evaluated first to last.
pub struct Filters {
    groups: Vec<(String, FilterKind)>,
}

/// The display form of a domain, the string rules are matched against.
pub open spec fn display_chars(d: Domain) -> Seq<char> {
    ascii_chars(join_dots(d@.reverse()))
}

impl Filters {
    pub closed spec fn wf(self) -> bool {
        forall|g: int| 0 <= g < self.groups@.len() ==> match (#[trigger] self.groups@[g]).1 {
            FilterKind::Pattern { set, patterns } => set matches Some(s) ==> regex_set_patterns(
                s,
            ) == patterns@.map_values(|p: String| p@),
            FilterKind::Domains { trie } => trie.wf(),
        }
    }

    pub closed spec fn group_count(self) -> int {
        self.groups@.len() as int
    }

    pub closed spec fn group_name(self, g: int) -> Seq<char> {
        self.groups@[g].0@
    }

    /// Whether group `g` matches the domain.
    pub closed spec fn group_matches(self, g: int, d: Domain) -> bool {
        match self.groups@[g].1 {
            FilterKind::Pattern { set, patterns } => match set {
                Some(s) => exists|i: int|
                    0 <= i < regex_set_patterns(s).len() && regex_match(
                        #[trigger] regex_set_patterns(s)[i],
                        display_chars(d),
                    ),
                None => false,
            },
            FilterKind::Domains { trie } => trie.covers(d@),
        }
    }

    /// The name of the first group that matches, scanning in order.
    pub closed spec fn match_from(self, g: int, d: Domain) -> Option<Seq<char>>
        decreases self.group_count() - g,
    {
        if g < 0 || g >= self.groups@.len() {
            None
        } else if self.group_matches(g, d) {
            Some(self.group_name(g))
        } else {
            self.match_from(g + 1, d)
        }
    }

    /// The group that decides this domain: the first match in declared
    /// order, or none.
    pub open spec fn check_spec(self, d: Domain) -> Option<Seq<char>> {
        self.match_from(0, d)
    }

    proof fn lemma_match_from_law(self, g: int, d: Domain)
        requires
            0 <= g <= self.group_count(),
        ensures
            (self.match_from(g, d) is None) == (forall|h: int| g <= h < self.group_count()
                ==> !self.group_matches(h, d)),
            forall|h: int| g <= h < self.group_count() && self.group_matches(h, d) && (forall|
                h2: int,
            | g <= h2 < h ==> !self.group_matches(h2, d)) ==> self.match_from(g, d) == Some(
                #[trigger] self.group_name(h),
            ),
        decreases self.group_count() - g,
    {
        if g < self.group_count() {
            self.lemma_match_from_law(g + 1, d);
            if self.group_matches(g, d) {
            } else {
                assert forall|h: int|
                    g <= h < self.group_count() && self.group_matches(h, d) && (forall|h2: int|
                        g <= h2 < h ==> !self.group_matches(h2, d)) implies self.match_from(g, d)
                    == Some(#[trigger] self.group_name(h)) by {
                    assert(h != g);
                    assert forall|h2: int| g + 1 <= h2 < h implies !self.group_matches(
                        h2,
                        d,
                    ) by {}
                }
            }
        }
    }

    /// The first-match law for callers: the verdict is `None` exactly
    /// when no group matches, and whenever group `g` matches while no
    /// earlier group does, the verdict names group `g`.
    pub proof fn lemma_check_first_match(self, d: Domain)
        ensures
            (self.check_spec(d) is None) == (forall|g: int| 0 <= g < self.group_count()
                ==> !self.group_matches(g, d)),
            forall|g: int| 0 <= g < self.group_count() && self.group_matches(g, d) && (forall|
                h: int,
            | 0 <= h < g ==> !self.group_matches(h, d)) ==> self.check_spec(d) == Some(
                #[trigger] self.group_name(g),
            ),
    {
        self.lemma_match_from_law(0, d);
    }

    /// An empty rule list: no group ever matches.
    pub fn default() -> (f: Filters)
        ensures
            f.wf(),
            f.group_count() == 0,
            forall|d: Domain| f.check_spec(d) is None,
    {
        let f = Filters { groups: Vec::new() };
        proof {
            assert forall|d: Domain| f.check_spec(d) is None by {}
        }
        f
    }

    /// Compile a rule list into its two standing groups: the enabled
    /// regex rules that compile become "Regex Match"; the enabled
    /// domain rules that parse become "Domain Match".
    pub fn build(rules: &Vec<Rule>) -> (f: Filters)
        ensures
            f.wf(),
            f.group_count() == 2,
            f.group_name(0) == "Regex Match"@,
            f.group_name(1) == "Domain Match"@,
            regex_set_valid(regex_exprs(rules@)) ==> forall|d: Domain| f.group_matches(0, d)
                == exists|i: int|
                0 <= i < rules@.len() && rule_regex_ok(#[trigger] rules@[i]) && regex_match(
                    rules@[i].expr@,
                    display_chars(d),
                ),
            !regex_set_valid(regex_exprs(rules@)) ==> forall|d: Domain| !f.group_matches(0, d),
            forall|d: Domain| f.group_matches(1, d) == exists|i: int|
                0 <= i < rules@.len() && rule_domain_ok(#[trigger] rules@[i]) && prefix_of(
                    rule_labels(rules@[i]),
                    d@,
                ),
    {
        let mut pats: Vec<String> = Vec::new();
        let ghost mut wit: Seq<int> = Seq::empty();
        let mut trie = Trie::new();
        let mut i: usize = 0;
        while i < rules.len()
            invariant
                i <= rules@.len(),
                trie.wf(),
                forall|k: int| 0 <= k < pats@.len() ==> regex_valid(#[trigger] pats@[k]@),
                pats@.map_values(|p: String| p@) =~= regex_exprs(rules@.take(i as int)),
                wit.len() == pats@.len(),
                forall|k: int| 0 <= k < pats@.len() ==> 0 <= #[trigger] wit[k] < i
                    && rule_regex_ok(rules@[wit[k]]) && pats@[k]@ == rules@[wit[k]].expr@,
                forall|j: int| 0 <= j < i && rule_regex_ok(#[trigger] rules@[j]) ==> exists|k: int|
                    0 <= k < pats@.len() && pats@[k]@ == rules@[j].expr@,
                forall|q: Seq<Seq<u8>>| trie.covers(q) == exists|j: int|
                    0 <= j < i && rule_domain_ok(#[trigger] rules@[j]) && prefix_of(
                        rule_labels(rules@[j]),
                        q,
                    ),
            decreases rules@.len() - i,
        {
            let rule = &rules[i];
            let ghost pats0 = pats@;
            let ghost trie0 = trie;
            if rule.enabled && rule.is_regex {
                if regex_compiles(rule.expr.as_str()) {
                    pats.push(rule.expr.clone());
                    proof {
                        wit = wit.push(i as int);
                    }
                }
            } else if rule.enabled {
                match Domain::parse(rule.expr.as_str()) {
                    Some(d) => {
                        proof {
                            assert(d@ == rule_labels(rules@[i as int]));
                            assert(rule_domain_ok(rules@[i as int]));
                        }
                        trie.push(&d);
                    },
                    None => {},
                }
            }
            proof {
                reveal_with_fuel(Seq::filter, 2);
                assert(rules@.take(i as int + 1).drop_last() =~= rules@.take(i as int));
                assert(rules@.take(i as int + 1).last() == rules@[i as int]);
                if rule_regex_ok(rules@[i as int]) {
                    assert(rules@.take(i as int + 1).filter(|r: Rule| rule_regex_ok(r))
                        =~= rules@.take(i as int).filter(|r: Rule| rule_regex_ok(r)).push(
                        rules@[i as int],
                    ));
                    assert(pats@.map_values(|p: String| p@) =~= pats0.map_values(
                        |p: String| p@,
                    ).push(rules@[i as int].expr@));
                    assert(pats@.map_values(|p: String| p@) =~= regex_exprs(
                        rules@.take(i as int + 1),
                    ));
                } else {
                    assert(rules@.take(i as int + 1).filter(|r: Rule| rule_regex_ok(r))
                        =~= rules@.take(i as int).filter(|r: Rule| rule_regex_ok(r)));
                    assert(pats@ == pats0);
                    assert(pats@.map_values(|p: String| p@) =~= regex_exprs(
                        rules@.take(i as int + 1),
                    ));
                }
                assert forall|k: int| 0 <= k < pats@.len() implies 0 <= #[trigger] wit[k] < i + 1
                    && rule_regex_ok(rules@[wit[k]]) && pats@[k]@ == rules@[wit[k]].expr@ by {
                    if k < pats0.len() {
                        assert(pats@[k] == pats0[k]);
                        assert(pats@[k]@ == pats0[k]@);
                    } else {
                        assert(wit[k] == i as int);
                        assert(rule_regex_ok(rules@[i as int]) && pats@[k]@
                            == rules@[i as int].expr@);
                    }
                }
                assert forall|j: int| 0 <= j < i + 1 && rule_regex_ok(#[trigger] rules@[j])
                    implies exists|k: int| 0 <= k < pats@.len() && pats@[k]@
                    == rules@[j].expr@ by {
                    if j < i {
                        let k0 = choose|k0: int| 0 <= k0 < pats0.len() && pats0[k0]@
                            == rules@[j].expr@;
                        assert(pats@[k0] == pats0[k0]);
                        assert(pats@[k0]@ == rules@[j].expr@);
                    } else {
                        assert(pats@[pats@.len() - 1]@ == rules@[j].expr@);
                    }
                }
                assert forall|q: Seq<Seq<u8>>| trie.covers(q) == (exists|j: int|
                    0 <= j < i + 1 && rule_domain_ok(#[trigger] rules@[j]) && prefix_of(
                        rule_labels(rules@[j]),
                        q,
                    )) by {
                    if trie.covers(q) {
                        if trie0.covers(q) {
                            let j0 = choose|j0: int|
                                0 <= j0 < i && rule_domain_ok(#[trigger] rules@[j0]) && prefix_of(
                                    rule_labels(rules@[j0]),
                                    q,
                                );
                            assert(0 <= j0 < i + 1 && rule_domain_ok(rules@[j0]) && prefix_of(
                                rule_labels(rules@[j0]),
                                q,
                            ));
                        } else {
                            assert(rule_domain_ok(rules@[i as int]) && prefix_of(
                                rule_labels(rules@[i as int]),
                                q,
                            ));
                        }
                    }
                    if exists|j: int| 0 <= j < i + 1 && rule_domain_ok(#[trigger] rules@[j])
                        && prefix_of(rule_labels(rules@[j]), q) {
                        let j0 = choose|j0: int|
                            0 <= j0 < i + 1 && rule_domain_ok(#[trigger] rules@[j0]) && prefix_of(
                                rule_labels(rules@[j0]),
                                q,
                            );
                        assert(trie.covers(q));
                    }
                }
            }
            i += 1;
        }
        proof {
            assert(rules@.take(rules@.len() as int) =~= rules@);
            assert(pats@.map_values(|p: String| p@) =~= regex_exprs(rules@));
        }
        let set = regex_set_new(&pats);
        let ghost set_built = set is Some;
        let mut groups: Vec<(String, FilterKind)> = Vec::new();
        groups.push((String::from_str("Regex Match"), FilterKind::Pattern { set, patterns: pats }));
        groups.push((String::from_str("Domain Match"), FilterKind::Domains { trie }));
        let f = Filters { groups };
        proof {
            assert(f.groups@.len() == 2);
            assert(f.groups@[1].1 matches FilterKind::Domains { trie: t } && t == trie);
            assert(set_built == regex_set_valid(regex_exprs(rules@)));
            if !set_built {
                assert forall|d: Domain| !f.group_matches(0, d) by {}
            } else {
                let s0 = f.groups@[0].1->Pattern_set->0;
                assert forall|d: Domain| f.group_matches(0, d) == (exists|i2: int|
                    0 <= i2 < rules@.len() && rule_regex_ok(#[trigger] rules@[i2]) && regex_match(
                        rules@[i2].expr@,
                        display_chars(d),
                    )) by {
                    let ps = regex_set_patterns(s0);
                    assert(ps == pats@.map_values(|p: String| p@));
                    if f.group_matches(0, d) {
                        let k = choose|k: int|
                            0 <= k < ps.len() && regex_match(#[trigger] ps[k], display_chars(d));
                        assert(ps[k] == pats@[k]@);
                        let j = wit[k];
                        assert(0 <= j < rules@.len() && rule_regex_ok(rules@[j]));
                        assert(regex_match(rules@[j].expr@, display_chars(d)));
                    }
                    if exists|i2: int| 0 <= i2 < rules@.len() && rule_regex_ok(
                        #[trigger] rules@[i2],
                    ) && regex_match(rules@[i2].expr@, display_chars(d)) {
                        let j = choose|j: int|
                            0 <= j < rules@.len() && rule_regex_ok(#[trigger] rules@[j])
                                && regex_match(rules@[j].expr@, display_chars(d));
                        let k = choose|k: int| 0 <= k < pats@.len() && pats@[k]@
                            == rules@[j].expr@;
                        assert(ps[k] == pats@[k]@);
                        assert(regex_match(ps[k], display_chars(d)));
                        assert(f.group_matches(0, d));
                    }
                }
            }
        }
        f
    }

    /// Append the blocklist group: a trie of the fetched domains under
    /// the standing name "BlockList Match".
    pub fn add_block_list(&mut self, domains: &Vec<Domain>)
        requires
            old(self).wf(),
            forall|i: int| 0 <= i < domains@.len() ==> (#[trigger] domains@[i]).wf(),
        ensures
            final(self).wf(),
            final(self).group_count() == old(self).group_count() + 1,
            forall|g: int| 0 <= g < old(self).group_count() ==> final(self).group_name(g) == old(
                self,
            ).group_name(g),
            forall|g: int, d: Domain| 0 <= g < old(self).group_count()
                ==> final(self).group_matches(g, d) == old(self).group_matches(g, d),
            final(self).group_name(old(self).group_count()) == "BlockList Match"@,
            forall|d: Domain| final(self).group_matches(old(self).group_count(), d)
                == exists|i: int| 0 <= i < domains@.len() && prefix_of(
                    (#[trigger] domains@[i])@,
                    d@,
                ),
    {
        let mut trie = Trie::new();
        let mut i: usize = 0;
        while i < domains.len()
            invariant
                i <= domains@.len(),
                trie.wf(),
                forall|k: int| 0 <= k < domains@.len() ==> (#[trigger] domains@[k]).wf(),
                forall|q: Seq<Seq<u8>>| trie.covers(q) == exists|j: int|
                    0 <= j < i && prefix_of((#[trigger] domains@[j])@, q),
            decreases domains@.len() - i,
        {
            let ghost trie0 = trie;
            trie.push(&domains[i]);
            proof {
                assert forall|q: Seq<Seq<u8>>| trie.covers(q) == (exists|j: int|
                    0 <= j < i + 1 && prefix_of((#[trigger] domains@[j])@, q)) by {
                    if trie.covers(q) {
                        if trie0.covers(q) {
                            let j0 = choose|j0: int|
                                0 <= j0 < i && prefix_of((#[trigger] domains@[j0])@, q);
                            assert(0 <= j0 < i + 1 && prefix_of(domains@[j0]@, q));
                        } else {
                            assert(prefix_of(domains@[i as int]@, q));
                        }
                    }
                    if exists|j: int| 0 <= j < i + 1 && prefix_of((#[trigger] domains@[j])@, q) {
                        let j0 = choose|j0: int|
                            0 <= j0 < i + 1 && prefix_of((#[trigger] domains@[j0])@, q);
                        assert(trie.covers(q));
                    }
                }
            }
            i += 1;
        }
        let ghost pre = *self;
        self.groups.push((String::from_str("BlockList Match"), FilterKind::Domains { trie }));
        proof {
            assert forall|g: int| 0 <= g < pre.group_count()
                implies #[trigger] self.groups@[g] == pre.groups@[g] by {}
            assert forall|g: int, d: Domain| 0 <= g < pre.group_count()
                implies self.group_matches(g, d) == pre.group_matches(g, d) by {
                assert(self.groups@[g] == pre.groups@[g]);
            }
            assert(self.groups@[pre.group_count()].1 matches FilterKind::Domains { trie: t } && t
                == trie);
        }
    }

    /// Evaluate the groups in order; the first match names the group.
    pub fn check(&self, d: &Domain) -> (r: Option<String>)
        requires
            self.wf(),
            d.wf(),
        ensures
            match r {
                Some(name) => self.check_spec(*d) == Some(name@),
                None => self.check_spec(*d) is None,
            },
    {
        let name = d.name();
        let mut g: usize = 0;
        while g < self.groups.len()
            invariant
                g <= self.groups@.len(),
                self.wf(),
                d.wf(),
                name@ == display_chars(*d),
                self.check_spec(*d) == self.match_from(g as int, *d),
            decreases self.groups@.len() - g,
        {
            let matched: bool = match &self.groups[g].1 {
                FilterKind::Pattern { set, patterns } => match set {
                    Some(s) => {
                        let hits = regex_set_matches(s, name.as_str());
                        proof {
                            if hits@.len() > 0 {
                                assert(regex_match(
                                    regex_set_patterns(*s)[hits@[0] as int],
                                    display_chars(*d),
                                ));
                            }
                        }
                        hits.len() > 0
                    },
                    None => false,
                },
                FilterKind::Domains { trie } => trie.contains(d),
            };
            proof {
                assert(matched == self.group_matches(g as int, *d));
            }
            if matched {
                return Some(self.groups[g].0.clone());
            }
            g += 1;
        }
        None
    }
}

} // verus!
