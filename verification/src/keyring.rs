//! The named test accounts and their key table.
//!
//! The eight well-known accounts are an enum; the key material itself is
//! derived outside this library (key derivation and signing are host
//! concerns) and handed in once as an explicit read-only [`KeyTable`],
//! against which every lookup here is exact.

use vstd::prelude::*;

verus! {

/// A raw public key as the host runtime carries it.
#[derive(Clone, Copy, Debug)]
pub struct Public(pub [u8; 32]);

/// A signing pair: the seed the host derived the key from, and the
/// matching public key.
#[derive(Clone, Copy, Debug)]
pub struct Pair {
    pub secret: [u8; 32],
    pub public: [u8; 32],
}

/// The read-only table of the eight test pairs, built once at start-up
/// by the host and passed by reference.
#[derive(Clone, Copy, Debug)]
pub struct KeyTable {
    pub pairs: [Pair; 8],
}

/// Set of test accounts.
#[derive(Clone, Copy, Debug, PartialEq, Eq, Structural)]
pub enum Keyring {
    Alice,
    Bob,
    Charlie,
    Dave,
    Eve,
    Ferdie,
    One,
    Two,
}

impl Keyring {
    /// The row of this account in the key table.
    pub open spec fn idx_spec(self) -> int {
        match self {
            Keyring::Alice => 0,
            Keyring::Bob => 1,
            Keyring::Charlie => 2,
            Keyring::Dave => 3,
            Keyring::Eve => 4,
            Keyring::Ferdie => 5,
            Keyring::One => 6,
            Keyring::Two => 7,
        }
    }

    /// The account in a given table row.
    pub open spec fn from_idx_spec(i: int) -> Keyring {
        if i == 0 {
            Keyring::Alice
        } else if i == 1 {
            Keyring::Bob
        } else if i == 2 {
            Keyring::Charlie
        } else if i == 3 {
            Keyring::Dave
        } else if i == 4 {
            Keyring::Eve
        } else if i == 5 {
            Keyring::Ferdie
        } else if i == 6 {
            Keyring::One
        } else {
            Keyring::Two
        }
    }

    /// The row index of this account.
    pub fn index(self) -> (r: usize)
        ensures
            r == self.idx_spec(),
            r < 8,
    {
        match self {
            Keyring::Alice => 0,
            Keyring::Bob => 1,
            Keyring::Charlie => 2,
            Keyring::Dave => 3,
            Keyring::Eve => 4,
            Keyring::Ferdie => 5,
            Keyring::One => 6,
            Keyring::Two => 7,
        }
    }

    /// The account sitting in table row `i`.
    pub fn from_index(i: usize) -> (r: Keyring)
        requires
            i < 8,
        ensures
            r == Keyring::from_idx_spec(i as int),
            r.idx_spec() == i,
    {
        if i == 0 {
            Keyring::Alice
        } else if i == 1 {
            Keyring::Bob
        } else if i == 2 {
            Keyring::Charlie
        } else if i == 3 {
            Keyring::Dave
        } else if i == 4 {
            Keyring::Eve
        } else if i == 5 {
            Keyring::Ferdie
        } else if i == 6 {
            Keyring::One
        } else {
            Keyring::Two
        }
    }

    /// The account whose public key equals `who`, if any: the first
    /// matching table row wins.
    pub fn from_public(who: &Public, table: &KeyTable) -> (r: Option<Keyring>)
        ensures
            r matches Some(k) ==> k.idx_spec() < 8 && table.pairs[k.idx_spec()].public == who.0
                && (forall|j: int| 0 <= j < k.idx_spec() ==> table.pairs[j].public != who.0),
            r is None ==> (forall|j: int| 0 <= j < 8 ==> table.pairs[j].public != who.0),
    {
        let mut i: usize = 0;
        while i < 8
            invariant
                i <= 8,
                forall|j: int| 0 <= j < i ==> table.pairs[j].public != who.0,
            decreases 8 - i,
        {
            if bytes32_eq(&table.pairs[i].public, &who.0) {
                return Some(Keyring::from_index(i));
            }
            i = i + 1;
        }
        None
    }

    /// The account whose raw public key equals `who`, if any.
    pub fn from_raw_public(who: [u8; 32], table: &KeyTable) -> (r: Option<Keyring>)
        ensures
            r matches Some(k) ==> k.idx_spec() < 8 && table.pairs[k.idx_spec()].public == who && (
            forall|j: int| 0 <= j < k.idx_spec() ==> table.pairs[j].public != who),
            r is None ==> (forall|j: int| 0 <= j < 8 ==> table.pairs[j].public != who),
    {
        Keyring::from_public(&Public(who), table)
    }

    /// This account's raw public key, read from the table.
    pub fn to_raw_public(self, table: &KeyTable) -> (r: [u8; 32])
        ensures
            r == table.pairs[self.idx_spec()].public,
    {
        table.pairs[self.index()].public
    }

    /// This account's raw public key as a byte vector.
    pub fn to_raw_public_vec(self, table: &KeyTable) -> (r: Vec<u8>)
        ensures
            r@ == table.pairs[self.idx_spec()].public@,
    {
        let raw = self.to_raw_public(table);
        let mut v: Vec<u8> = Vec::new();
        let mut i: usize = 0;
        while i < 32
            invariant
                i <= 32,
                v@.len() == i,
                forall|j: int| 0 <= j < i ==> v@[j] == raw@[j],
            decreases 32 - i,
        {
            v.push(raw[i]);
            i = i + 1;
        }
        proof {
            assert(v@ =~= raw@);
        }
        v
    }

    /// This account's public key, read from the table.
    pub fn public(self, table: &KeyTable) -> (r: Public)
        ensures
            r.0 == table.pairs[self.idx_spec()].public,
    {
        Public(table.pairs[self.index()].public)
    }

    /// This account's signing pair, read from the table.
    pub fn pair(self, table: &KeyTable) -> (r: Pair)
        ensures
            r == table.pairs[self.idx_spec()],
    {
        table.pairs[self.index()]
    }

    /// The derivation path of this account's key.
    pub open spec fn seed_spec(self) -> Seq<char> {
        match self {
            Keyring::Alice => "//Alice"@,
            Keyring::Bob => "//Bob"@,
            Keyring::Charlie => "//Charlie"@,
            Keyring::Dave => "//Dave"@,
            Keyring::Eve => "//Eve"@,
            Keyring::Ferdie => "//Ferdie"@,
            Keyring::One => "//One"@,
            Keyring::Two => "//Two"@,
        }
    }

    /// The derivation path the host feeds to its key derivation.
    pub fn to_seed(self) -> (r: String)
        ensures
            r@ == self.seed_spec(),
    {
        match self {
            Keyring::Alice => "//Alice".to_owned(),
            Keyring::Bob => "//Bob".to_owned(),
            Keyring::Charlie => "//Charlie".to_owned(),
            Keyring::Dave => "//Dave".to_owned(),
            Keyring::Eve => "//Eve".to_owned(),
            Keyring::Ferdie => "//Ferdie".to_owned(),
            Keyring::One => "//One".to_owned(),
            Keyring::Two => "//Two".to_owned(),
        }
    }
}

/// Whether two 32-byte strings are equal.
fn bytes32_eq(a: &[u8; 32], b: &[u8; 32]) -> (r: bool)
    ensures
        r <==> *a == *b,
{
    let mut i: usize = 0;
    while i < 32
        invariant
            i <= 32,
            forall|j: int| 0 <= j < i ==> a@[j] == b@[j],
        decreases 32 - i,
    {
        if a[i] != b[i] {
            return false;
        }
        i = i + 1;
    }
    proof {
        assert(*a =~= *b);
    }
    true
}

} // verus!
