use vstd::prelude::*;
use vstd::utf8::encode_utf8;

verus! {

/// The type that all keys of one index share.
#[derive(Debug, Clone, Copy, PartialEq, Eq, Structural)]
pub enum KeyType {
    Short,
    Int,
    Varchar,
}

/// A key: a 32-bit or 64-bit signed integer, or a UTF-8 string.
#[derive(Debug)]
pub enum Key {
    Short(i32),
    Int(i64),
    Varchar(String),
}

/// A key as a mathematical value: a string key is its UTF-8 bytes.
pub enum KeyV {
    Short(int),
    Int(int),
    Varchar(Seq<u8>),
}

/// The UTF-8 bytes of a string.
pub open spec fn utf8(s: Seq<char>) -> Seq<u8> {
    encode_utf8(s)
}

impl View for Key {
    type V = KeyV;

    open spec fn view(&self) -> KeyV {
        match self {
            Key::Short(v) => KeyV::Short(*v as int),
            Key::Int(v) => KeyV::Int(*v as int),
            Key::Varchar(s) => KeyV::Varchar(utf8(s@)),
        }
    }
}

/// `a` is a strict prefix of `b`, or the first byte where they differ is smaller in `a`.
pub open spec fn lex_lt(a: Seq<u8>, b: Seq<u8>) -> bool {
    exists|i: int|
        #![trigger a.subrange(0, i)]
        0 <= i <= a.len() && i <= b.len() && a.subrange(0, i) == b.subrange(0, i) && ((i
            == a.len() && i < b.len()) || (i < a.len() && i < b.len() && a[i] < b[i]))
}

pub open spec fn kind_rank(k: KeyV) -> int {
    match k {
        KeyV::Short(_) => 0,
        KeyV::Int(_) => 1,
        KeyV::Varchar(_) => 2,
    }
}

/// Keys order numerically, strings by their bytes; keys of different types order by type.
pub open spec fn key_lt(a: KeyV, b: KeyV) -> bool {
    match (a, b) {
        (KeyV::Short(x), KeyV::Short(y)) => x < y,
        (KeyV::Int(x), KeyV::Int(y)) => x < y,
        (KeyV::Varchar(x), KeyV::Varchar(y)) => lex_lt(x, y),
        _ => kind_rank(a) < kind_rank(b),
    }
}

/// A record as a mathematical value: its key and the bytes of its payload.
pub type RecV = (KeyV, Seq<u8>);

/// Records order by key, then by payload bytes.
pub open spec fn rec_lt(a: RecV, b: RecV) -> bool {
    key_lt(a.0, b.0) || (a.0 == b.0 && lex_lt(a.1, b.1))
}

pub proof fn lemma_lex_irrefl(a: Seq<u8>)
    ensures
        !lex_lt(a, a),
{
}

pub proof fn lemma_lex_trans(a: Seq<u8>, b: Seq<u8>, c: Seq<u8>)
    requires
        lex_lt(a, b),
        lex_lt(b, c),
    ensures
        lex_lt(a, c),
{
    let i = choose|i: int|
        #![trigger a.subrange(0, i)]
        0 <= i <= a.len() && i <= b.len() && a.subrange(0, i) == b.subrange(0, i) && ((i
            == a.len() && i < b.len()) || (i < a.len() && i < b.len() && a[i] < b[i]));
    let j = choose|j: int|
        #![trigger b.subrange(0, j)]
        0 <= j <= b.len() && j <= c.len() && b.subrange(0, j) == c.subrange(0, j) && ((j
            == b.len() && j < c.len()) || (j < b.len() && j < c.len() && b[j] < c[j]));
    let m = if i < j { i } else { j };
    assert(a.subrange(0, m) =~= c.subrange(0, m)) by {
        assert forall|t: int| 0 <= t < m implies a[t] == c[t] by {
            assert(a.subrange(0, i)[t] == b.subrange(0, i)[t]);
            assert(b.subrange(0, j)[t] == c.subrange(0, j)[t]);
        }
    }
    if i < j {
        assert(b.subrange(0, j)[i] == c.subrange(0, j)[i]);
    } else if j < i {
        assert(a.subrange(0, i)[j] == b.subrange(0, i)[j]);
    }
    assert(0 <= m <= a.len() && m <= c.len() && a.subrange(0, m) == c.subrange(0, m) && ((m
        == a.len() && m < c.len()) || (m < a.len() && m < c.len() && a[m] < c[m])));
}

pub proof fn lemma_key_irrefl(a: KeyV)
    ensures
        !key_lt(a, a),
{
}

pub proof fn lemma_key_trans(a: KeyV, b: KeyV, c: KeyV)
    requires
        key_lt(a, b),
        key_lt(b, c),
    ensures
        key_lt(a, c),
{
    match (a, b, c) {
        (KeyV::Varchar(x), KeyV::Varchar(y), KeyV::Varchar(z)) => lemma_lex_trans(x, y, z),
        _ => {},
    }
}

pub proof fn lemma_rec_irrefl(a: RecV)
    ensures
        !rec_lt(a, a),
{
    lemma_key_irrefl(a.0);
}

pub proof fn lemma_rec_trans(a: RecV, b: RecV, c: RecV)
    requires
        rec_lt(a, b),
        rec_lt(b, c),
    ensures
        rec_lt(a, c),
{
    if key_lt(a.0, b.0) && key_lt(b.0, c.0) {
        lemma_key_trans(a.0, b.0, c.0);
    } else if a.0 == b.0 && b.0 == c.0 {
        lemma_lex_trans(a.1, b.1, c.1);
    }
}

/// Three-way comparison of two byte strings.
pub fn bytes_cmp(a: &[u8], b: &[u8]) -> (r: i8)
    ensures
        r < 0 <==> lex_lt(a@, b@),
        r > 0 <==> lex_lt(b@, a@),
        r == 0 <==> a@ == b@,
        -1 <= r <= 1,
{
    let mut i: usize = 0;
    while i < a.len() && i < b.len() && a[i] == b[i]
        invariant
            0 <= i <= a@.len(),
            i <= b@.len(),
            a@.subrange(0, i as int) == b@.subrange(0, i as int),
        decreases a@.len() - i,
    {
        assert(a@.subrange(0, i + 1) =~= a@.subrange(0, i as int).push(a@[i as int]));
        assert(b@.subrange(0, i + 1) =~= b@.subrange(0, i as int).push(b@[i as int]));
        i = i + 1;
    }
    proof {
        lemma_lex_irrefl(a@);
        if lex_lt(a@, b@) && lex_lt(b@, a@) {
            lemma_lex_trans(a@, b@, a@);
        }
        if i == a@.len() && i == b@.len() {
            assert(a@ =~= a@.subrange(0, i as int));
            assert(b@ =~= b@.subrange(0, i as int));
        }
    }
    if i == a.len() && i == b.len() {
        0
    } else if i == a.len() {
        assert(lex_lt(a@, b@));
        -1
    } else if i == b.len() {
        assert(b@.subrange(0, i as int) == a@.subrange(0, i as int));
        assert(lex_lt(b@, a@));
        assert(a@ != b@);
        1
    } else if a[i] < b[i] {
        assert(lex_lt(a@, b@));
        assert(a@[i as int] != b@[i as int]);
        -1
    } else {
        assert(b@.subrange(0, i as int) == a@.subrange(0, i as int));
        assert(lex_lt(b@, a@));
        assert(a@[i as int] != b@[i as int]);
        1
    }
}

/// Three-way comparison of the UTF-8 bytes of two strings.
pub fn str_cmp(a: &String, b: &String) -> (r: i8)
    ensures
        r < 0 <==> lex_lt(utf8(a@), utf8(b@)),
        r > 0 <==> lex_lt(utf8(b@), utf8(a@)),
        r == 0 <==> utf8(a@) == utf8(b@),
        -1 <= r <= 1,
{
    bytes_cmp(a.as_str().as_bytes(), b.as_str().as_bytes())
}

/// Three-way comparison of two keys.
pub fn key_cmp(a: &Key, b: &Key) -> (r: i8)
    ensures
        r < 0 <==> key_lt(a@, b@),
        r > 0 <==> key_lt(b@, a@),
        r == 0 <==> a@ == b@,
        -1 <= r <= 1,
{
    match (a, b) {
        (Key::Short(x), Key::Short(y)) => if *x < *y { -1 } else if *x > *y { 1 } else { 0 },
        (Key::Int(x), Key::Int(y)) => if *x < *y { -1 } else if *x > *y { 1 } else { 0 },
        (Key::Varchar(x), Key::Varchar(y)) => str_cmp(x, y),
        (Key::Short(_), _) => -1,
        (Key::Varchar(_), _) => 1,
        (Key::Int(_), Key::Short(_)) => 1,
        (Key::Int(_), Key::Varchar(_)) => -1,
    }
}

/// A copy of a key.
pub fn copy_key(k: &Key) -> (r: Key)
    ensures
        r@ == k@,
{
    match k {
        Key::Short(v) => Key::Short(*v),
        Key::Int(v) => Key::Int(*v),
        Key::Varchar(s) => Key::Varchar(s.clone()),
    }
}

impl Key {
    /// The type of this key.
    pub fn key_type(&self) -> (r: KeyType)
        ensures
            r == key_type_of(self@),
    {
        match self {
            Key::Short(_) => KeyType::Short,
            Key::Int(_) => KeyType::Int,
            Key::Varchar(_) => KeyType::Varchar,
        }
    }
}

pub open spec fn key_type_of(k: KeyV) -> KeyType {
    match k {
        KeyV::Short(_) => KeyType::Short,
        KeyV::Int(_) => KeyType::Int,
        KeyV::Varchar(_) => KeyType::Varchar,
    }
}

} // verus!
