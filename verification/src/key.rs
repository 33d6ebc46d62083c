use vstd::prelude::*;

verus! {

/// Number of address bytes in every key.
pub const KEY_ADDR_LEN: usize = 32;

/// Length of a key's byte form: one tag byte, then the address.
pub const KEY_BYTES_LEN: usize = 33;

/// Identifier of one storage slot.
///
/// A key is a plain value: once made it never changes, and two keys are the same key
/// exactly when their byte forms agree.
#[derive(Clone, Copy, Debug, PartialEq, Eq, PartialOrd, Ord, Hash)]
pub enum Key {
    /// The state of an account, by its address.
    Account([u8; 32]),
    /// A stored contract, by its hash.
    Hash([u8; 32]),
    /// An unforgeable reference to a value.
    URef([u8; 32]),
}

impl Key {
    /// The tag byte that tells the kinds of key apart.
    pub open spec fn tag(self) -> u8 {
        match self {
            Key::Account(_) => 0u8,
            Key::Hash(_) => 1u8,
            Key::URef(_) => 2u8,
        }
    }

    /// The address the key carries.
    pub open spec fn addr(self) -> Seq<u8> {
        match self {
            Key::Account(a) => a@,
            Key::Hash(a) => a@,
            Key::URef(a) => a@,
        }
    }

    /// The byte form under which the key is filed in a store: the tag, then the
    /// address.
    pub open spec fn bytes(self) -> Seq<u8> {
        seq![self.tag()] + self.addr()
    }

    /// `a` comes before `b` in the order of keys, which is the order of their byte
    /// forms read left to right.
    pub open spec fn precedes(self, other: Key) -> bool {
        bytes_precede(self.bytes(), other.bytes())
    }

    fn address(&self) -> (a: &[u8; 32])
        ensures
            a@ == self.addr(),
    {
        match self {
            Key::Account(a) => a,
            Key::Hash(a) => a,
            Key::URef(a) => a,
        }
    }

    fn tag_byte(&self) -> (t: u8)
        ensures
            t == self.tag(),
    {
        match self {
            Key::Account(_) => 0,
            Key::Hash(_) => 1,
            Key::URef(_) => 2,
        }
    }

    /// Writes the key's byte form.
    pub fn to_bytes(&self) -> (out: Vec<u8>)
        ensures
            out@ == self.bytes(),
            out@.len() == KEY_BYTES_LEN,
    {
        let a = self.address();
        let mut out: Vec<u8> = Vec::new();
        out.push(self.tag_byte());
        let mut i: usize = 0;
        while i < 32
            invariant
                i <= 32,
                a@ == self.addr(),
                out@ == (seq![self.tag()] + self.addr().subrange(0, i as int)),
            decreases 32 - i,
        {
            out.push(a[i]);
            i += 1;
        }
        assert(self.addr().subrange(0, 32) == self.addr());
        out
    }

    /// Reads a key from its byte form.
    ///
    /// Gives the key if `bytes` is the byte form of one: a tag byte of a kind of key,
    /// then 32 address bytes, and nothing more.
    pub fn from_bytes(bytes: &[u8]) -> (r: Option<Key>)
        ensures
            r == parse_key(bytes@),
    {
        proof {
            lemma_key_bytes_shape();
        }
        if bytes.len() != 33 {
            return None;
        }
        let tag = bytes[0];
        if tag > 2 {
            return None;
        }
        let mut addr: [u8; 32] = [0u8; 32];
        let mut i: usize = 0;
        while i < 32
            invariant
                i <= 32,
                bytes@.len() == 33,
                forall|j: int| 0 <= j < i ==> addr@[j] == bytes@[j + 1],
            decreases 32 - i,
        {
            addr[i] = bytes[i + 1];
            i += 1;
        }
        let k = if tag == 0 {
            Key::Account(addr)
        } else if tag == 1 {
            Key::Hash(addr)
        } else {
            Key::URef(addr)
        };
        proof {
            assert(k.bytes() =~= bytes@);
            lemma_parse_key(k);
        }
        Some(k)
    }

    /// Tells whether two keys are the same key.
    pub fn equals(&self, other: &Key) -> (same: bool)
        ensures
            same == (*self == *other),
    {
        if self.tag_byte() != other.tag_byte() {
            return false;
        }
        let a = self.address();
        let b = other.address();
        let mut i: usize = 0;
        while i < 32
            invariant
                i <= 32,
                a@ == self.addr(),
                b@ == other.addr(),
                self.tag() == other.tag(),
                forall|j: int| 0 <= j < i ==> self.addr()[j] == other.addr()[j],
            decreases 32 - i,
        {
            if a[i] != b[i] {
                return false;
            }
            i += 1;
        }
        proof {
            assert(self.addr() =~= other.addr());
            lemma_key_from_parts(*self, *other);
        }
        true
    }

    /// Tells whether this key comes before `other` in the order of keys.
    pub fn less_than(&self, other: &Key) -> (before: bool)
        ensures
            before == self.precedes(*other),
    {
        let x = self.to_bytes();
        let y = other.to_bytes();
        let mut i: usize = 0;
        while i < 33
            invariant
                i <= 33,
                x@ == self.bytes(),
                y@ == other.bytes(),
                x@.len() == 33,
                y@.len() == 33,
                forall|j: int| 0 <= j < i ==> x@[j] == y@[j],
            decreases 33 - i,
        {
            if x[i] != y[i] {
                let before = x[i] < y[i];
                proof {
                    lemma_first_difference(x@, y@, i as int);
                }
                return before;
            }
            i += 1;
        }
        proof {
            assert(x@ =~= y@);
            lemma_precede_irreflexive(x@);
        }
        false
    }
}

/// The key whose byte form is `bytes`, if there is one.
pub open spec fn parse_key(bytes: Seq<u8>) -> Option<Key> {
    if exists|k: Key| k.bytes() == bytes {
        Some(choose|k: Key| k.bytes() == bytes)
    } else {
        None
    }
}

/// Every byte form is 33 bytes long and starts with the tag of a kind of key.
pub proof fn lemma_key_bytes_shape()
    ensures
        forall|k: Key| (#[trigger] k.bytes()).len() == 33 && k.bytes()[0] == k.tag() && k.tag() <= 2,
{
}

/// Reading the byte form of a key gives the key back.
pub proof fn lemma_parse_key(k: Key)
    ensures
        parse_key(k.bytes()) == Some(k),
{
    let found = choose|x: Key| x.bytes() == k.bytes();
    lemma_key_bytes_injective(found, k);
}

/// The first place, if any, at which two byte strings of one length differ.
pub open spec fn first_difference(x: Seq<u8>, y: Seq<u8>) -> int
    recommends
        x.len() == y.len(),
    decreases x.len(),
{
    if x.len() == 0 || y.len() == 0 {
        0
    } else if x[0] != y[0] {
        0
    } else {
        1 + first_difference(x.drop_first(), y.drop_first())
    }
}

/// Order of byte strings of one length, read left to right: the string with the
/// smaller byte at the first difference comes first.
pub open spec fn bytes_precede(x: Seq<u8>, y: Seq<u8>) -> bool {
    let d = first_difference(x, y);
    d < x.len() && d < y.len() && x[d] < y[d]
}

proof fn lemma_first_difference(x: Seq<u8>, y: Seq<u8>, i: int)
    requires
        x.len() == y.len(),
        0 <= i < x.len(),
        forall|j: int| 0 <= j < i ==> x[j] == y[j],
        x[i] != y[i],
    ensures
        first_difference(x, y) == i,
    decreases x.len(),
{
    if i > 0 {
        lemma_first_difference(x.drop_first(), y.drop_first(), i - 1);
    }
}

proof fn lemma_first_difference_equal(x: Seq<u8>)
    ensures
        first_difference(x, x) == x.len(),
    decreases x.len(),
{
    if x.len() > 0 {
        lemma_first_difference_equal(x.drop_first());
    }
}

proof fn lemma_precede_irreflexive(x: Seq<u8>)
    ensures
        !bytes_precede(x, x),
{
    lemma_first_difference_equal(x);
}

proof fn lemma_first_difference_bounds(x: Seq<u8>, y: Seq<u8>)
    requires
        x.len() == y.len(),
    ensures
        0 <= first_difference(x, y) <= x.len(),
        forall|j: int| 0 <= j < first_difference(x, y) ==> x[j] == y[j],
        first_difference(x, y) < x.len() ==> x[first_difference(x, y)] != y[first_difference(x, y)],
    decreases x.len(),
{
    if x.len() > 0 && x[0] == y[0] {
        lemma_first_difference_bounds(x.drop_first(), y.drop_first());
        let d = first_difference(x.drop_first(), y.drop_first());
        assert forall|j: int| 0 <= j < 1 + d implies x[j] == y[j] by {
            if j > 0 {
                assert(x.drop_first()[j - 1] == y.drop_first()[j - 1]);
            }
        }
        if d < x.len() - 1 {
            assert(x.drop_first()[d] == x[d + 1]);
            assert(y.drop_first()[d] == y[d + 1]);
        }
    }
}

proof fn lemma_key_from_parts(a: Key, b: Key)
    requires
        a.tag() == b.tag(),
        a.addr() == b.addr(),
    ensures
        a == b,
{
    match (a, b) {
        (Key::Account(x), Key::Account(y)) => {
            assert(x =~= y);
        },
        (Key::Hash(x), Key::Hash(y)) => {
            assert(x =~= y);
        },
        (Key::URef(x), Key::URef(y)) => {
            assert(x =~= y);
        },
        _ => {},
    }
}

/// Two keys with the same byte form are the same key: no two slots share a place in
/// the store.
pub proof fn lemma_key_bytes_injective(a: Key, b: Key)
    requires
        a.bytes() == b.bytes(),
    ensures
        a == b,
{
    assert(a.bytes()[0] == a.tag());
    assert(b.bytes()[0] == b.tag());
    assert(a.addr() =~= a.bytes().subrange(1, a.bytes().len() as int));
    assert(b.addr() =~= b.bytes().subrange(1, b.bytes().len() as int));
    lemma_key_from_parts(a, b);
}

/// The order of keys is a strict total order: no key precedes itself, of two
/// different keys exactly one precedes the other, and the order is transitive.
pub proof fn lemma_key_order_total(a: Key, b: Key, c: Key)
    ensures
        !a.precedes(a),
        a != b ==> (a.precedes(b) <==> !b.precedes(a)),
        a == b ==> !a.precedes(b),
        a.precedes(b) && b.precedes(c) ==> a.precedes(c),
{
    let x = a.bytes();
    let y = b.bytes();
    let z = c.bytes();
    lemma_precede_irreflexive(x);
    lemma_first_difference_bounds(x, y);
    lemma_first_difference_bounds(y, x);
    lemma_first_difference_bounds(y, z);
    lemma_first_difference_bounds(x, z);
    let dxy = first_difference(x, y);
    let dyx = first_difference(y, x);
    if a != b {
        if dxy == x.len() {
            assert(x =~= y);
            lemma_key_bytes_injective(a, b);
        }
        if dxy < dyx {
            assert(x[dxy] == y[dxy]);
        }
        if dyx < dxy {
            assert(x[dyx] == y[dyx]);
        }
    }
    if a.precedes(b) && b.precedes(c) {
        let dyz = first_difference(y, z);
        let d = if dxy <= dyz { dxy } else { dyz };
        assert(x[d] != z[d]);
        assert forall|j: int| 0 <= j < d implies x[j] == z[j] by {
            assert(x[j] == y[j]);
            assert(y[j] == z[j]);
        }
        lemma_first_difference(x, z, d);
    }
}

} // verus!
