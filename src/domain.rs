//! Named domains with their lengths, and the scores of domain pairings.
use vstd::prelude::*;
use vstd::string::*;

verus! {

/// Why a domain sequence cannot be scored.
#[derive(Debug, Clone)]
pub enum RegistryError {
    /// A domain name in the sequence was not found in the registry.
    UnknownDomain(String),
    /// Any other failure.
    Other(String),
}

/// A domain of a sequence: the registered domain it names, its length, and
/// whether the sequence uses its complement (`name*`).
#[derive(Debug, Clone, Copy, PartialEq, Eq, Structural)]
pub struct Domain {
    pub id: usize,
    pub length: usize,
    pub complement: bool,
}

/// Two domains pair when one is the complement of the other; the pair then
/// scores the shorter length.
pub open spec fn domain_pair_score(a: Domain, b: Domain) -> nat {
    if a.id == b.id && a.complement != b.complement {
        if a.length <= b.length {
            a.length as nat
        } else {
            b.length as nat
        }
    } else {
        0
    }
}

/// The score of pairing two domains.
pub fn pair_score(a: &Domain, b: &Domain) -> (r: usize)
    ensures
        r == domain_pair_score(*a, *b),
{
    if a.id == b.id && a.complement != b.complement {
        if a.length <= b.length {
            a.length
        } else {
            b.length
        }
    } else {
        0
    }
}

/// A name without a trailing `*`, and whether there was one.
pub open spec fn base_name(name: Seq<char>) -> (Seq<char>, bool) {
    if name.len() > 0 && name[name.len() - 1] == '*' {
        (name.subrange(0, name.len() - 1), true)
    } else {
        (name, false)
    }
}

/// The first entry named `name`, if any.
pub open spec fn first_named(entries: Seq<(Seq<char>, nat)>, name: Seq<char>) -> Option<int> {
    if exists|k: int| 0 <= k < entries.len() && #[trigger] entries[k].0 == name {
        Some(
            choose|k: int|
                0 <= k < entries.len() && #[trigger] entries[k].0 == name && forall|k2: int|
                    0 <= k2 < k ==> #[trigger] entries[k2].0 != name,
        )
    } else {
        None
    }
}

/// The domain a name stands for in a registry.
pub open spec fn lookup(entries: Seq<(Seq<char>, nat)>, name: Seq<char>) -> Option<Domain> {
    match first_named(entries, base_name(name).0) {
        Some(k) => Some(
            Domain { id: k as usize, length: entries[k].1 as usize, complement: base_name(name).1 },
        ),
        None => None,
    }
}

/// Registered domains: names and lengths, by id.
#[derive(Debug, Clone)]
pub struct DomainRegistry {
    entries: Vec<(String, usize)>,
}

impl View for DomainRegistry {
    type V = Seq<(Seq<char>, nat)>;

    closed spec fn view(&self) -> Seq<(Seq<char>, nat)> {
        self.entries@.map_values(|e: (String, usize)| (e.0@, e.1 as nat))
    }
}

proof fn lemma_first_named(entries: Seq<(Seq<char>, nat)>, name: Seq<char>, k: int)
    requires
        0 <= k < entries.len(),
        entries[k].0 == name,
        forall|k2: int| 0 <= k2 < k ==> #[trigger] entries[k2].0 != name,
    ensures
        first_named(entries, name) == Some(k),
{
    let c = choose|c: int|
        0 <= c < entries.len() && #[trigger] entries[c].0 == name && forall|k2: int|
            0 <= k2 < c ==> #[trigger] entries[k2].0 != name;
    if c < k {
        assert(entries[c].0 != name);
    } else if k < c {
        assert(entries[k].0 != name);
    }
}

impl DomainRegistry {
    /// An empty registry.
    pub fn new() -> (r: DomainRegistry)
        ensures
            r@ == Seq::<(Seq<char>, nat)>::empty(),
    {
        let r = DomainRegistry { entries: Vec::new() };
        assert(r@ =~= Seq::<(Seq<char>, nat)>::empty());
        r
    }

    /// Position of the first entry named `name`.
    fn find(&self, name: &String) -> (r: Option<usize>)
        ensures
            r matches Some(k) ==> first_named(self@, name@) == Some(k as int) && k
                < self.entries@.len(),
            r is None ==> first_named(self@, name@) is None,
    {
        let mut k: usize = 0;
        while k < self.entries.len()
            invariant
                k <= self.entries@.len(),
                forall|k2: int| 0 <= k2 < k ==> #[trigger] self@[k2].0 != name@,
            decreases self.entries@.len() - k,
        {
            if self.entries[k].0 == *name {
                proof {
                    lemma_first_named(self@, name@, k as int);
                }
                return Some(k);
            }
            k += 1;
        }
        None
    }

    /// Register a domain; a name that is there already keeps its first length.
    /// Returns the domain's id.
    pub fn intern(&mut self, name: &str, length: usize) -> (r: usize)
        ensures
            first_named(old(self)@, name@) matches Some(k) ==> final(self)@ == old(self)@ && r == k,
            first_named(old(self)@, name@) is None ==> final(self)@ == old(self)@.push(
                (name@, length as nat),
            ) && r == old(self)@.len(),
    {
        let owned = String::from_str(name);
        match self.find(&owned) {
            Some(k) => k,
            None => {
                let r = self.entries.len();
                self.entries.push((owned, length));
                assert(self@ =~= old(self)@.push((name@, length as nat)));
                r
            },
        }
    }

    /// The domain `name` stands for: a registered name, or one followed by `*`
    /// for its complement.
    pub fn get(&self, name: &str) -> (r: Option<Domain>)
        ensures
            r == lookup(self@, name@),
    {
        let n = name.unicode_len();
        let complement = n > 0 && name.get_char(n - 1) == '*';
        let base = if complement {
            name.substring_char(0, n - 1)
        } else {
            name
        };
        let owned = String::from_str(base);
        assert(owned@ == base_name(name@).0);
        assert(complement == base_name(name@).1);
        match self.find(&owned) {
            Some(k) => Some(Domain { id: k, length: self.entries[k].1, complement }),
            None => None,
        }
    }
}

} // verus!
