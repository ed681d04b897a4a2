//! Compact entity identifiers: one length byte, the type's bytes, then the
//! id's bytes. Type and id come out without scanning for a separator, and all
//! identifiers of one type share a byte prefix.
use vstd::prelude::*;
#[allow(unused_imports)]
use vstd::string::*;
#[allow(unused_imports)]
use vstd::utf8::*;
use crate::keys::push_bytes;
use crate::text::{bytes_equal, decimal, decimal_string, lemma_split_at_ascii, str_from_utf8};

verus! {

/// Longest entity type, in bytes.
pub const MAX_TYPE_LEN: usize = 255;

/// Why an identifier could not be built.
#[derive(Debug, Clone, PartialEq, Eq)]
pub struct EntityIdError {
    /// What was wrong, in words.
    pub message: String,
}

/// The type's bytes in an identifier's layout.
pub open spec fn type_part(d: Seq<u8>) -> Seq<u8> {
    d.subrange(1, 1 + d[0] as int)
}

/// The id's bytes in an identifier's layout.
pub open spec fn id_part(d: Seq<u8>) -> Seq<u8> {
    d.subrange(1 + d[0] as int, d.len() as int)
}

/// Well-formed layout: a non-zero type length, that many type bytes, at least
/// one id byte, and both parts valid UTF-8.
pub open spec fn valid_entity_bytes(d: Seq<u8>) -> bool {
    &&& d.len() >= 1
    &&& d[0] >= 1
    &&& 1 + d[0] + 1 <= d.len()
    &&& valid_utf8(type_part(d))
    &&& valid_utf8(id_part(d))
}

/// The layout of type `t` and id `i`.
pub open spec fn entity_layout(t: Seq<u8>, i: Seq<u8>) -> Seq<u8> {
    seq![t.len() as u8] + t + i
}

/// The bytes of `"_type"`.
pub open spec fn meta_type_bytes() -> Seq<u8> {
    seq![95u8, 116u8, 121u8, 112u8, 101u8]
}

/// A layout built from a non-empty type of at most 255 bytes and a non-empty
/// id, both valid UTF-8, is well formed and reads back as that type and id.
pub proof fn lemma_entity_layout(t: Seq<u8>, i: Seq<u8>)
    requires
        1 <= t.len() <= 255,
        i.len() >= 1,
        valid_utf8(t),
        valid_utf8(i),
    ensures
        valid_entity_bytes(entity_layout(t, i)),
        type_part(entity_layout(t, i)) == t,
        id_part(entity_layout(t, i)) == i,
{
    let d = entity_layout(t, i);
    assert(d[0] == t.len() as u8);
    assert(type_part(d) =~= t);
    assert(id_part(d) =~= i);
}

/// Prefix scans find exactly the identifiers of a type: for a type of at
/// most 255 bytes, the type's prefix starts a well-formed identifier exactly
/// when the identifier has that type.
pub proof fn lemma_type_prefix(d: Seq<u8>, t: Seq<u8>)
    requires
        valid_entity_bytes(d),
        t.len() <= 255,
    ensures
        (seq![t.len() as u8] + t).is_prefix_of(d) <==> type_part(d) == t,
{
    let p = seq![t.len() as u8] + t;
    assert((t.len() as u8) as int == t.len());
    if p.is_prefix_of(d) {
        assert(d[0] == p[0]);
        assert(type_part(d) =~= t) by {
            assert forall|j: int| 0 <= j < t.len() implies type_part(d)[j] == t[j] by {
                assert(d[1 + j] == p[1 + j]);
            }
        }
    }
    if type_part(d) == t {
        assert(d[0] as int == t.len());
        assert forall|j: int| 0 <= j < p.len() implies p[j] == d[j] by {
            if j > 0 {
                assert(type_part(d)[j - 1] == d[j]);
            }
        }
    }
}

/// Encoding distributes over concatenation.
pub(crate) proof fn lemma_encode_concat(a: Seq<char>, b: Seq<char>)
    ensures
        encode_utf8(a + b) == encode_utf8(a) + encode_utf8(b),
    decreases a.len(),
{
    if a.len() == 0 {
        assert(a + b =~= b);
        assert(encode_utf8(a) =~= Seq::<u8>::empty());
        assert(encode_utf8(a) + encode_utf8(b) =~= encode_utf8(b));
    } else {
        lemma_encode_concat(a.drop_first(), b);
        assert((a + b).drop_first() =~= a.drop_first() + b);
        assert((a + b)[0] == a[0]);
        let h = encode_scalar(a[0] as u32);
        assert(encode_utf8(a + b) == h + encode_utf8(a.drop_first() + b));
        assert(encode_utf8(a) == h + encode_utf8(a.drop_first()));
        assert(h + (encode_utf8(a.drop_first()) + encode_utf8(b)) =~= (h + encode_utf8(a.drop_first())) + encode_utf8(
            b,
        ));
    }
}

/// The `"type:id"` text of an identifier whose type holds no `':'` parses
/// back to it: its bytes are the type's bytes, a `':'`, then the id's bytes,
/// so the first `':'` ends the type, and the two parts build the same layout.
pub proof fn lemma_format_parse_roundtrip(d: Seq<u8>)
    requires
        valid_entity_bytes(d),
        !type_part(d).contains(58u8),
    ensures
        ({
            let b = encode_utf8(decode_utf8(type_part(d)) + seq![':'] + decode_utf8(id_part(d)));
            let k = d[0] as int;
            &&& b == type_part(d) + seq![58u8] + id_part(d)
            &&& 0 <= k < b.len() && b[k] == 58u8
            &&& forall|j: int| 0 <= j < k ==> b[j] != 58u8
            &&& b.subrange(0, k) == type_part(d)
            &&& b.subrange(k + 1, b.len() as int) == id_part(d)
            &&& EntityId::new_outcome(type_part(d), id_part(d)) is None
            &&& entity_layout(type_part(d), id_part(d)) == d
        }),
{
    let t = type_part(d);
    let i = id_part(d);
    let colon = seq![':'];
    decode_utf8_encode_utf8(t);
    decode_utf8_encode_utf8(i);
    lemma_encode_concat(decode_utf8(t) + colon, decode_utf8(i));
    lemma_encode_concat(decode_utf8(t), colon);
    assert(is_ascii_chars(colon));
    is_ascii_chars_encode_utf8(colon);
    assert(encode_utf8(colon) =~= seq![58u8]);
    let b = t + seq![58u8] + i;
    assert(encode_utf8(decode_utf8(t) + colon + decode_utf8(i)) == b);
    let k = d[0] as int;
    assert(t.len() == k);
    assert(b[k] == 58u8);
    assert forall|j: int| 0 <= j < k implies b[j] != 58u8 by {
        assert(b[j] == t[j]);
    }
    assert(b.subrange(0, k) =~= t);
    assert(b.subrange(k + 1, b.len() as int) =~= i);
    assert(entity_layout(t, i) =~= d) by {
        assert((t.len() as u8) == d[0]);
    }
}

/// Wraps `Vec::into_boxed_slice`, which its documentation says converts the
/// vector into a boxed slice of the same elements.
#[verifier::external_body]
fn boxed_bytes(v: Vec<u8>) -> (b: Box<[u8]>)
    ensures
        b@ == v@,
{
    v.into_boxed_slice()
}

/// A compact entity identifier.
#[derive(PartialEq, Eq, PartialOrd, Ord, Hash, Debug)]
pub struct EntityId {
    data: Box<[u8]>,
}

impl View for EntityId {
    type V = Seq<u8>;

    closed spec fn view(&self) -> Seq<u8> {
        self.data@
    }
}

impl Clone for EntityId {
    fn clone(&self) -> (r: Self)
        ensures
            r@ == self@,
    {
        proof {
            use_type_invariant(self);
        }
        EntityId { data: boxed_bytes(vstd::slice::slice_to_vec(&self.data)) }
    }
}

impl<'a> TryFrom<&'a str> for EntityId {
    type Error = EntityIdError;

    /// As `EntityId::parse`.
    fn try_from(s: &'a str) -> (r: Result<Self, EntityIdError>)
        ensures
            !s.spec_bytes().contains(58u8) ==> (r matches Err(e) && e.message@
                == "Invalid entity ID '"@ + s@ + "': must be 'type:id' format"@),
            forall|k: int|
                #![trigger s.spec_bytes()[k]]
                0 <= k < s.spec_bytes().len() && s.spec_bytes()[k] == 58u8 && (forall|j: int|
                    0 <= j < k ==> s.spec_bytes()[j] != 58u8) ==> {
                    let t = s.spec_bytes().subrange(0, k);
                    let i = s.spec_bytes().subrange(k + 1, s.spec_bytes().len() as int);
                    match Self::new_outcome(t, i) {
                        Some(m) => r matches Err(e) && e.message@ == m,
                        None => r matches Ok(x) && x@ == entity_layout(t, i),
                    }
                },
    {
        Self::parse(s)
    }
}

impl<'a> vstd::std_specs::convert::TryFromSpecImpl<&'a str> for EntityId {
    /// Conversion is described by the contract of `try_from` itself, not by
    /// a spec function.
    open spec fn obeys_try_from_spec() -> bool {
        false
    }

    open spec fn try_from_spec(v: &'a str) -> Result<Self, EntityIdError> {
        arbitrary()
    }
}

impl TryFrom<String> for EntityId {
    type Error = EntityIdError;

    /// As `EntityId::parse` on the string's text.
    fn try_from(s: String) -> (r: Result<Self, EntityIdError>)
        ensures
            !encode_utf8(s@).contains(58u8) ==> (r matches Err(e) && e.message@
                == "Invalid entity ID '"@ + s@ + "': must be 'type:id' format"@),
            forall|k: int|
                #![trigger encode_utf8(s@)[k]]
                0 <= k < encode_utf8(s@).len() && encode_utf8(s@)[k] == 58u8 && (forall|j: int|
                    0 <= j < k ==> encode_utf8(s@)[j] != 58u8) ==> {
                    let t = encode_utf8(s@).subrange(0, k);
                    let i = encode_utf8(s@).subrange(k + 1, encode_utf8(s@).len() as int);
                    match Self::new_outcome(t, i) {
                        Some(m) => r matches Err(e) && e.message@ == m,
                        None => r matches Ok(x) && x@ == entity_layout(t, i),
                    }
                },
    {
        Self::parse(s.as_str())
    }
}

impl vstd::std_specs::convert::TryFromSpecImpl<String> for EntityId {
    /// Conversion is described by the contract of `try_from` itself, not by
    /// a spec function.
    open spec fn obeys_try_from_spec() -> bool {
        false
    }

    open spec fn try_from_spec(v: String) -> Result<Self, EntityIdError> {
        arbitrary()
    }
}

impl<'a> TryFrom<&'a [u8]> for EntityId {
    type Error = EntityIdError;

    /// As `EntityId::from_bytes`.
    fn try_from(bytes: &'a [u8]) -> (r: Result<Self, EntityIdError>)
        ensures
            r is Ok <==> valid_entity_bytes(bytes@),
            r matches Ok(x) ==> x@ == bytes@,
            bytes@.len() == 0 ==> (r matches Err(e) && e.message@ == "Empty byte array"@),
            bytes@.len() > 0 && bytes@[0] == 0 ==> (r matches Err(e) && e.message@
                == "Entity type length cannot be zero"@),
            bytes@.len() > 0 && bytes@[0] != 0 && bytes@.len() < 1 + bytes@[0] + 1 ==> (r matches Err(e)
                && e.message@ == "Byte array too short: need at least "@ + decimal((1 + bytes@[0] + 1) as nat)
                + " bytes, got "@ + decimal(bytes@.len())),
            bytes@.len() > 0 && bytes@[0] != 0 && bytes@.len() >= 1 + bytes@[0] + 1 && !valid_utf8(
                type_part(bytes@),
            ) ==> (r matches Err(e) && "Invalid UTF-8 in entity type: "@.is_prefix_of(e.message@)),
            bytes@.len() > 0 && bytes@[0] != 0 && bytes@.len() >= 1 + bytes@[0] + 1 && valid_utf8(
                type_part(bytes@),
            ) && !valid_utf8(id_part(bytes@)) ==> (r matches Err(e) && "Invalid UTF-8 in entity id: "@.is_prefix_of(
                e.message@,
            )),
    {
        Self::from_bytes(bytes)
    }
}

impl<'a> vstd::std_specs::convert::TryFromSpecImpl<&'a [u8]> for EntityId {
    /// Conversion is described by the contract of `try_from` itself, not by
    /// a spec function.
    open spec fn obeys_try_from_spec() -> bool {
        false
    }

    open spec fn try_from_spec(v: &'a [u8]) -> Result<Self, EntityIdError> {
        arbitrary()
    }
}

fn error(message: String) -> (e: EntityIdError)
    ensures
        e.message == message,
{
    EntityIdError { message }
}

impl EntityId {
    #[verifier::type_invariant]
    spec fn well_formed(self) -> bool {
        valid_entity_bytes(self.data@)
    }

    /// The outcome of building an identifier from the bytes of a type and an id.
    pub open spec fn new_outcome(t: Seq<u8>, i: Seq<u8>) -> Option<Seq<char>> {
        if t.len() == 0 {
            Some("Entity type cannot be empty"@)
        } else if t.len() > 255 {
            Some("Entity type too long: "@ + decimal(t.len()) + " bytes (max 255)"@)
        } else if i.len() == 0 {
            Some("Entity id cannot be empty"@)
        } else {
            None
        }
    }

    fn from_parts(t: &[u8], i: &[u8]) -> (r: Result<Self, EntityIdError>)
        requires
            valid_utf8(t@),
            valid_utf8(i@),
        ensures
            match Self::new_outcome(t@, i@) {
                Some(m) => r matches Err(e) && e.message@ == m,
                None => r matches Ok(x) && x@ == entity_layout(t@, i@),
            },
    {
        proof {
            reveal_strlit("Entity type cannot be empty");
            reveal_strlit("Entity type too long: ");
            reveal_strlit(" bytes (max 255)");
            reveal_strlit("Entity id cannot be empty");
        }
        if t.len() == 0 {
            return Err(error(String::from_str("Entity type cannot be empty")));
        }
        if t.len() > MAX_TYPE_LEN {
            let m = String::from_str("Entity type too long: ").concat(decimal_string(t.len() as u64).as_str()).concat(
                " bytes (max 255)",
            );
            return Err(error(m));
        }
        if i.len() == 0 {
            return Err(error(String::from_str("Entity id cannot be empty")));
        }
        let mut data: Vec<u8> = Vec::new();
        data.push(t.len() as u8);
        push_bytes(&mut data, t);
        push_bytes(&mut data, i);
        proof {
            assert(data@ =~= entity_layout(t@, i@));
            lemma_entity_layout(t@, i@);
        }
        Ok(EntityId { data: boxed_bytes(data) })
    }

    /// Builds an identifier from a type and an id. Fails when the type is
    /// empty or longer than 255 bytes, or when the id is empty.
    pub fn new(entity_type: &str, id: &str) -> (r: Result<Self, EntityIdError>)
        ensures
            match Self::new_outcome(entity_type.spec_bytes(), id.spec_bytes()) {
                Some(m) => r matches Err(e) && e.message@ == m,
                None => r matches Ok(x) && x@ == entity_layout(entity_type.spec_bytes(), id.spec_bytes()),
            },
    {
        proof {
            encode_utf8_valid_utf8(entity_type@);
            encode_utf8_valid_utf8(id@);
        }
        Self::from_parts(entity_type.as_bytes(), id.as_bytes())
    }

    /// Parses `"type:id"`, splitting at the first `':'`; then as `new`.
    pub fn parse(s: &str) -> (r: Result<Self, EntityIdError>)
        ensures
            !s.spec_bytes().contains(58u8) ==> (r matches Err(e) && e.message@
                == "Invalid entity ID '"@ + s@ + "': must be 'type:id' format"@),
            forall|k: int|
                #![trigger s.spec_bytes()[k]]
                0 <= k < s.spec_bytes().len() && s.spec_bytes()[k] == 58u8 && (forall|j: int|
                    0 <= j < k ==> s.spec_bytes()[j] != 58u8) ==> {
                    let t = s.spec_bytes().subrange(0, k);
                    let i = s.spec_bytes().subrange(k + 1, s.spec_bytes().len() as int);
                    match Self::new_outcome(t, i) {
                        Some(m) => r matches Err(e) && e.message@ == m,
                        None => r matches Ok(x) && x@ == entity_layout(t, i),
                    }
                },
    {
        let b = s.as_bytes();
        proof {
            encode_utf8_valid_utf8(s@);
        }
        let mut k: usize = 0;
        while k < b.len()
            invariant
                k <= b@.len(),
                b@ == s.spec_bytes(),
                valid_utf8(b@),
                forall|j: int| 0 <= j < k ==> b@[j] != 58u8,
            decreases b@.len() - k,
        {
            if b[k] == 58u8 {
                proof {
                    lemma_split_at_ascii(b@, k as int);
                }
                let t = vstd::slice::slice_subrange(b, 0, k);
                let i = vstd::slice::slice_subrange(b, k + 1, b.len());
                let r = Self::from_parts(t, i);
                proof {
                    assert forall|k2: int|
                        0 <= k2 < b@.len() && b@[k2] == 58u8 && (forall|j: int| 0 <= j < k2 ==> b@[j] != 58u8)
                        implies k2 == k by {
                        if k2 < k {
                        } else if k2 > k {
                            assert(b@[k as int] != 58u8);
                        }
                    }
                }
                return r;
            }
            k = k + 1;
        }
        proof {
            reveal_strlit("Invalid entity ID '");
            reveal_strlit("': must be 'type:id' format");
            if s.spec_bytes().contains(58u8) {
                let w = choose|w: int| 0 <= w < s.spec_bytes().len() && s.spec_bytes()[w] == 58u8;
                assert(b@[w] != 58u8);
            }
        }
        let m = String::from_str("Invalid entity ID '").concat(s).concat("': must be 'type:id' format");
        Err(error(m))
    }
}


impl EntityId {
    /// Builds an identifier from stored bytes, checking their layout: a
    /// non-empty input, a non-zero type length, room for the type and at least
    /// one id byte, and valid UTF-8 in both parts (in that order). On a UTF-8
    /// error the message ends with the decoder's own description.
    pub fn from_bytes(bytes: &[u8]) -> (r: Result<Self, EntityIdError>)
        ensures
            r is Ok <==> valid_entity_bytes(bytes@),
            r matches Ok(x) ==> x@ == bytes@,
            bytes@.len() == 0 ==> (r matches Err(e) && e.message@ == "Empty byte array"@),
            bytes@.len() > 0 && bytes@[0] == 0 ==> (r matches Err(e) && e.message@
                == "Entity type length cannot be zero"@),
            bytes@.len() > 0 && bytes@[0] != 0 && bytes@.len() < 1 + bytes@[0] + 1 ==> (r matches Err(e)
                && e.message@ == "Byte array too short: need at least "@ + decimal((1 + bytes@[0] + 1) as nat)
                + " bytes, got "@ + decimal(bytes@.len())),
            bytes@.len() > 0 && bytes@[0] != 0 && bytes@.len() >= 1 + bytes@[0] + 1 && !valid_utf8(
                type_part(bytes@),
            ) ==> (r matches Err(e) && "Invalid UTF-8 in entity type: "@.is_prefix_of(e.message@)),
            bytes@.len() > 0 && bytes@[0] != 0 && bytes@.len() >= 1 + bytes@[0] + 1 && valid_utf8(
                type_part(bytes@),
            ) && !valid_utf8(id_part(bytes@)) ==> (r matches Err(e) && "Invalid UTF-8 in entity id: "@.is_prefix_of(
                e.message@,
            )),
    {
        proof {
            reveal_strlit("Empty byte array");
            reveal_strlit("Entity type length cannot be zero");
            reveal_strlit("Byte array too short: need at least ");
            reveal_strlit(" bytes, got ");
            reveal_strlit("Invalid UTF-8 in entity type: ");
            reveal_strlit("Invalid UTF-8 in entity id: ");
        }
        if bytes.len() == 0 {
            return Err(error(String::from_str("Empty byte array")));
        }
        let type_len = bytes[0] as usize;
        if type_len == 0 {
            return Err(error(String::from_str("Entity type length cannot be zero")));
        }
        if bytes.len() < 1 + type_len + 1 {
            let m = String::from_str("Byte array too short: need at least ").concat(
                decimal_string((1 + type_len + 1) as u64).as_str(),
            ).concat(" bytes, got ").concat(decimal_string(bytes.len() as u64).as_str());
            return Err(error(m));
        }
        match str_from_utf8(vstd::slice::slice_subrange(bytes, 1, 1 + type_len)) {
            Ok(_) => {},
            Err(reason) => {
                let m = String::from_str("Invalid UTF-8 in entity type: ").concat(reason.as_str());
                return Err(error(m));
            },
        }
        match str_from_utf8(vstd::slice::slice_subrange(bytes, 1 + type_len, bytes.len())) {
            Ok(_) => {},
            Err(reason) => {
                let m = String::from_str("Invalid UTF-8 in entity id: ").concat(reason.as_str());
                return Err(error(m));
            },
        }
        Ok(EntityId { data: boxed_bytes(vstd::slice::slice_to_vec(bytes)) })
    }

    /// The entity type.
    pub fn entity_type(&self) -> (t: &str)
        ensures
            t.spec_bytes() == type_part(self@),
    {
        proof {
            use_type_invariant(self);
        }
        let len = self.data[0] as usize;
        match str_from_utf8(vstd::slice::slice_subrange(&self.data, 1, 1 + len)) {
            Ok(t) => t,
            Err(_) => {
                proof {
                    assert(false);
                }
                ""
            },
        }
    }

    /// The entity id (the part after the type).
    pub fn id(&self) -> (i: &str)
        ensures
            i.spec_bytes() == id_part(self@),
    {
        proof {
            use_type_invariant(self);
        }
        let len = self.data[0] as usize;
        match str_from_utf8(vstd::slice::slice_subrange(&self.data, 1 + len, self.data.len())) {
            Ok(i) => i,
            Err(_) => {
                proof {
                    assert(false);
                }
                ""
            },
        }
    }

    /// The stored bytes; they always form a well-formed layout.
    pub fn as_bytes(&self) -> (b: &[u8])
        ensures
            b@ == self@,
            valid_entity_bytes(b@),
    {
        proof {
            use_type_invariant(self);
        }
        &self.data
    }

    /// The length of the type, in bytes (the first stored byte).
    pub fn type_len(&self) -> (n: usize)
        ensures
            n == self@[0],
            n == type_part(self@).len(),
            1 <= n <= 255,
    {
        proof {
            use_type_invariant(self);
        }
        self.data[0] as usize
    }

    /// The total stored length, in bytes.
    pub fn byte_len(&self) -> (n: usize)
        ensures
            n == self@.len(),
    {
        self.data.len()
    }

    /// Whether the type is `"_type"` (a meta-type entity).
    pub fn is_meta_type(&self) -> (r: bool)
        ensures
            r == (type_part(self@) == meta_type_bytes()),
    {
        proof {
            use_type_invariant(self);
        }
        let meta: [u8; 5] = [95, 116, 121, 112, 101];
        assert(meta@ =~= meta_type_bytes());
        let len = self.data[0] as usize;
        bytes_equal(vstd::slice::slice_subrange(&self.data, 1, 1 + len), &meta)
    }

    /// Whether the type starts with `'_'` (an internal type).
    pub fn is_internal_type(&self) -> (r: bool)
        ensures
            r == (type_part(self@)[0] == 95u8),
    {
        proof {
            use_type_invariant(self);
        }
        self.data[1] == 95u8
    }

    /// The meta-type entity of this entity's type: `"_type:<type>"`.
    pub fn meta_type(&self) -> (m: Self)
        ensures
            m@ == entity_layout(meta_type_bytes(), type_part(self@)),
    {
        proof {
            use_type_invariant(self);
        }
        let meta: [u8; 5] = [95, 116, 121, 112, 101];
        assert(meta@ =~= meta_type_bytes());
        let len = self.data[0] as usize;
        let t = vstd::slice::slice_subrange(&self.data, 1, 1 + len);
        proof {
            reveal_with_fuel(valid_utf8, 6);
            assert(valid_utf8(meta@));
        }
        match Self::from_parts(&meta, t) {
            Ok(m) => m,
            Err(_) => {
                proof {
                    assert(false);
                }
                self.clone()
            },
        }
    }

    /// The identifier as `"type:id"`.
    pub fn to_string_format(&self) -> (s: String)
        ensures
            s@ == decode_utf8(type_part(self@)) + seq![':'] + decode_utf8(id_part(self@)),
    {
        let t = self.entity_type();
        let i = self.id();
        proof {
            reveal_strlit(":");
            encode_utf8_decode_utf8(t@);
            encode_utf8_decode_utf8(i@);
        }
        String::from_str(t).concat(":").concat(i)
    }

    /// The byte prefix of every identifier of type `entity_type`: its length
    /// byte (the length taken modulo 256), then its bytes.
    pub fn prefix_for_type(entity_type: &str) -> (p: Vec<u8>)
        ensures
            p@ == seq![entity_type.spec_bytes().len() as u8] + entity_type.spec_bytes(),
    {
        let b = entity_type.as_bytes();
        let mut p: Vec<u8> = Vec::new();
        p.push(b.len() as u8);
        push_bytes(&mut p, b);
        proof {
            assert(p@ =~= seq![entity_type.spec_bytes().len() as u8] + entity_type.spec_bytes());
        }
        p
    }

    /// Whether the entity type is `entity_type`.
    pub fn has_type(&self, entity_type: &str) -> (r: bool)
        ensures
            r == (type_part(self@) == entity_type.spec_bytes()),
    {
        proof {
            use_type_invariant(self);
        }
        let len = self.data[0] as usize;
        bytes_equal(vstd::slice::slice_subrange(&self.data, 1, 1 + len), entity_type.as_bytes())
    }

    /// Whether the stored bytes start with `prefix`.
    pub fn starts_with(&self, prefix: &[u8]) -> (r: bool)
        ensures
            r == prefix@.is_prefix_of(self@),
    {
        if prefix.len() > self.data.len() {
            return false;
        }
        bytes_equal(vstd::slice::slice_subrange(&self.data, 0, prefix.len()), prefix)
    }
}

} // verus!
