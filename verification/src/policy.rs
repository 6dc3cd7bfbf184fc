use vstd::prelude::*;
use crate::domain::Domain;
use crate::filters::Filters;

verus! {

/// The compiled policy a query is judged against: the allow groups
/// and the block groups, each evaluated in declared order.
pub struct PolicyArtifact {
    pub allow: Filters,
    pub block: Filters,
}

impl PolicyArtifact {
    pub open spec fn wf(self) -> bool {
        self.allow.wf() && self.block.wf()
    }
}

/// Holds the current artifact. Readers take a snapshot; a reload
/// builds a fresh artifact off-path and swaps it in whole, so a reader
/// sees either the old artifact or the new one, never a mixture.
pub struct PolicyStore {
    artifact: PolicyArtifact,
}

impl PolicyStore {
    pub closed spec fn view_artifact(self) -> PolicyArtifact {
        self.artifact
    }

    pub open spec fn wf(self) -> bool {
        self.view_artifact().wf()
    }

    pub fn new(artifact: PolicyArtifact) -> (s: PolicyStore)
        requires
            artifact.wf(),
        ensures
            s.wf(),
            s.view_artifact() == artifact,
    {
        PolicyStore { artifact }
    }

    /// A read-only view of the current artifact, unchanged and whole.
    pub fn snapshot(&self) -> (a: &PolicyArtifact)
        ensures
            *a == self.view_artifact(),
    {
        &self.artifact
    }

    /// Replace the whole artifact in one step: afterwards the store
    /// holds exactly the new artifact, and nothing of the old one.
    pub fn swap(&mut self, artifact: PolicyArtifact)
        requires
            artifact.wf(),
        ensures
            final(self).wf(),
            final(self).view_artifact() == artifact,
    {
        self.artifact = artifact;
    }
}

/// The outcome of judging a run of query names in order, carrying a
/// pending block verdict along: the first name an allow group matches
/// settles on `allow` immediately; otherwise the last matching block
/// group is kept, and no match at all means no policy.
pub open spec fn classify_spec(
    allow: Filters,
    block: Filters,
    qs: Seq<Domain>,
    pending: Option<Seq<char>>,
) -> Option<(Seq<char>, bool)>
    decreases qs.len(),
{
    if qs.len() == 0 {
        match pending {
            Some(n) => Some((n, false)),
            None => None,
        }
    } else {
        match allow.check_spec(qs[0]) {
            Some(n) => Some((n, true)),
            None => classify_spec(
                allow,
                block,
                qs.skip(1),
                match block.check_spec(qs[0]) {
                    Some(b) => Some(b),
                    None => pending,
                },
            ),
        }
    }
}

/// Decide a request's queries against the allow and block groups.
/// Returns the matching group's name and whether the request is
/// allowed; `None` means no policy applies.
pub fn classify(allow: &Filters, block: &Filters, queries: &Vec<Domain>) -> (r: Option<
    (String, bool),
>)
    requires
        allow.wf(),
        block.wf(),
        forall|i: int| 0 <= i < queries@.len() ==> (#[trigger] queries@[i]).wf(),
    ensures
        match r {
            Some(p) => classify_spec(*allow, *block, queries@, None) == Some((p.0@, p.1)),
            None => classify_spec(*allow, *block, queries@, None) is None,
        },
{
    let mut pending: Option<String> = None;
    let mut i: usize = 0;
    proof {
        assert(queries@.skip(0) =~= queries@);
    }
    while i < queries.len()
        invariant
            i <= queries@.len(),
            allow.wf(),
            block.wf(),
            forall|k: int| 0 <= k < queries@.len() ==> (#[trigger] queries@[k]).wf(),
            classify_spec(*allow, *block, queries@, None) == classify_spec(
                *allow,
                *block,
                queries@.skip(i as int),
                match pending {
                    Some(n) => Some(n@),
                    None => None,
                },
            ),
        decreases queries@.len() - i,
    {
        proof {
            assert(queries@.skip(i as int)[0] == queries@[i as int]);
            assert(queries@.skip(i as int).skip(1) =~= queries@.skip(i as int + 1));
        }
        match allow.check(&queries[i]) {
            Some(name) => {
                return Some((name, true));
            },
            None => {},
        }
        match block.check(&queries[i]) {
            Some(name) => {
                pending = Some(name);
            },
            None => {},
        }
        i += 1;
    }
    proof {
        assert(queries@.skip(queries@.len() as int).len() == 0);
    }
    match pending {
        Some(name) => Some((name, false)),
        None => None,
    }
}

/// An allow match beats every block match: whenever some query of the
/// run is matched by an allow group, the classification is `allow`,
/// whatever the block groups say of any query.
pub proof fn lemma_allow_precedence(
    allow: Filters,
    block: Filters,
    qs: Seq<Domain>,
    pending: Option<Seq<char>>,
)
    requires
        exists|i: int| 0 <= i < qs.len() && (#[trigger] allow.check_spec(qs[i])) is Some,
    ensures
        classify_spec(allow, block, qs, pending) matches Some(p) && p.1 == true,
    decreases qs.len(),
{
    let i0 = choose|i: int| 0 <= i < qs.len() && (#[trigger] allow.check_spec(qs[i])) is Some;
    if allow.check_spec(qs[0]) is Some {
    } else {
        assert(i0 >= 1);
        assert(qs.skip(1)[i0 - 1] == qs[i0]);
        lemma_allow_precedence(
            allow,
            block,
            qs.skip(1),
            match block.check_spec(qs[0]) {
                Some(b) => Some(b),
                None => pending,
            },
        );
    }
}

/// A classification of `block` comes only with no allow match on any
/// query of the run.
pub proof fn lemma_block_means_no_allow(
    allow: Filters,
    block: Filters,
    qs: Seq<Domain>,
)
    requires
        classify_spec(allow, block, qs, None) matches Some(p) && p.1 == false,
    ensures
        forall|i: int| 0 <= i < qs.len() ==> !((#[trigger] allow.check_spec(qs[i])) is Some),
{
    if exists|i: int| 0 <= i < qs.len() && (#[trigger] allow.check_spec(qs[i])) is Some {
        lemma_allow_precedence(allow, block, qs, None);
    }
}

} // verus!
