use vstd::prelude::*;
use crate::paths::has_dotdot;
use crate::paths::contains_dotdot;

verus! {

/// The association the stored entries denote; a later entry for the same
/// name wins, as the last writer of a racing pair does.
pub open spec fn entries_model(es: Seq<(String, Vec<u8>)>) -> Map<Seq<char>, Seq<u8>>
    decreases es.len(),
{
    if es.len() == 0 {
        Map::empty()
    } else {
        entries_model(es.drop_last()).insert(es.last().0@, es.last().1@)
    }
}

/// A lazily filled byte cache for static assets, keyed by the requested
/// filename.  Entries are never evicted: asset content is immutable for
/// the life of the process, and the asset set is small and fixed.
pub struct AssetCache {
    entries: Vec<(String, Vec<u8>)>,
}

/// What a request for an asset name should do next.
pub enum AssetDecision {
    /// The name holds a parent-directory marker: a not-found outcome,
    /// and no read anywhere.
    Reject,
    /// A copy of the cached bytes; no filesystem read happens.
    Serve(Vec<u8>),
    /// A miss: the caller reads the file and then calls `store`.
    Load,
}

/// The decision the cache contents dictate for a name.
pub ghost enum DecisionM {
    Reject,
    Serve(Seq<u8>),
    Load,
}

pub open spec fn decision_of(m: Map<Seq<char>, Seq<u8>>, name: Seq<char>) -> DecisionM {
    if has_dotdot(name) {
        DecisionM::Reject
    } else if m.contains_key(name) {
        DecisionM::Serve(m[name])
    } else {
        DecisionM::Load
    }
}

impl View for AssetCache {
    type V = Map<Seq<char>, Seq<u8>>;

    closed spec fn view(&self) -> Map<Seq<char>, Seq<u8>> {
        entries_model(self.entries@)
    }
}

impl AssetCache {
    /// An empty cache; one is made at startup and handed to every
    /// request handler.
    pub fn new() -> (r: AssetCache)
        ensures
            r@ == Map::<Seq<char>, Seq<u8>>::empty(),
    {
        AssetCache { entries: Vec::new() }
    }

    /// What to do for a request of `name`: refuse a traversal attempt,
    /// serve a copy of the cached bytes, or tell the caller to read the
    /// file once and `store` what it got.
    pub fn decide(&self, name: &str) -> (r: AssetDecision)
        ensures
            match r {
                AssetDecision::Reject => decision_of(self@, name@) == DecisionM::Reject,
                AssetDecision::Serve(b) => decision_of(self@, name@) == DecisionM::Serve(b@),
                AssetDecision::Load => decision_of(self@, name@) == DecisionM::Load,
            },
    {
        if contains_dotdot(name) {
            return AssetDecision::Reject;
        }
        match self.lookup(name) {
            Some(b) => AssetDecision::Serve(b),
            None => AssetDecision::Load,
        }
    }

    /// A copy of the cached bytes for `name`, if any.
    pub fn lookup(&self, name: &str) -> (r: Option<Vec<u8>>)
        ensures
            match r {
                Some(b) => self@.contains_key(name@) && b@ == self@[name@],
                None => !self@.contains_key(name@),
            },
    {
        let mut i: usize = self.entries.len();
        proof {
            assert(self.entries@.subrange(0, i as int) =~= self.entries@);
        }
        while i > 0
            invariant
                i <= self.entries@.len(),
                entries_model(self.entries@).contains_key(name@) == entries_model(
                    self.entries@.subrange(0, i as int),
                ).contains_key(name@),
                entries_model(self.entries@).contains_key(name@) ==> entries_model(
                    self.entries@,
                )[name@] == entries_model(self.entries@.subrange(0, i as int))[name@],
            decreases i,
        {
            i = i - 1;
            let e = &self.entries[i];
            let ghost pre = self.entries@.subrange(0, i + 1);
            proof {
                assert(pre.drop_last() =~= self.entries@.subrange(0, i as int));
                assert(pre.last() == self.entries@[i as int]);
            }
            if string_eq_str(&e.0, name) {
                let mut copy: Vec<u8> = Vec::new();
                copy_bytes(&mut copy, &e.1);
                return Some(copy);
            }
        }
        proof {
            assert(self.entries@.subrange(0, 0) =~= Seq::<(String, Vec<u8>)>::empty());
        }
        None
    }

    /// Puts the bytes read for a missed name into the cache.  With two
    /// racing loaders the later call wins, which is harmless: both read
    /// the same immutable file.
    pub fn store(&mut self, name: String, bytes: Vec<u8>)
        ensures
            final(self)@ == old(self)@.insert(name@, bytes@),
    {
        let ghost before = self.entries@;
        self.entries.push((name, bytes));
        proof {
            assert(self.entries@.drop_last() =~= before);
        }
    }
}

/// Once bytes are stored for a name, a request for that name is served
/// from memory with exactly those bytes, and no further read happens:
/// asking twice cannot differ.
pub proof fn lemma_cache_idempotent(m: Map<Seq<char>, Seq<u8>>, name: Seq<char>, bytes: Seq<u8>)
    requires
        !has_dotdot(name),
    ensures
        decision_of(m.insert(name, bytes), name) == DecisionM::Serve(bytes),
{
}

/// A name holding the parent-directory marker is refused whatever the
/// cache holds: no bytes are served and no read is asked for.
pub proof fn lemma_traversal_never_served(m: Map<Seq<char>, Seq<u8>>, name: Seq<char>)
    requires
        has_dotdot(name),
    ensures
        decision_of(m, name) == DecisionM::Reject,
{
}

fn string_eq_str(a: &String, b: &str) -> (r: bool)
    ensures
        r == (a@ == b@),
{
    let bs = b.to_owned();
    *a == bs
}

fn copy_bytes(out: &mut Vec<u8>, src: &Vec<u8>)
    requires
        old(out)@.len() == 0,
    ensures
        final(out)@ == src@,
{
    let mut i: usize = 0;
    while i < src.len()
        invariant
            i <= src@.len(),
            out@ == src@.subrange(0, i as int),
        decreases src@.len() - i,
    {
        out.push(src[i]);
        proof {
            assert(out@ =~= src@.subrange(0, i + 1));
        }
        i = i + 1;
    }
    proof {
        assert(src@.subrange(0, src@.len() as int) =~= src@);
    }
}

} // verus!
