use crate::corner_table::CornerTable;
use crate::cursor::{varuint_at, varuint_ends_at, varuint_sum, varuint_truncated, ByteCursor};
use crate::error::DecodeError;
use crate::header::{EncoderMethod, Header};
use crate::prediction::{needs_topology, scheme_of, PredictionScheme};
use crate::sequencer::{generate_sequence, is_identity};
use vstd::prelude::*;

verus! {

/// One encoded attribute: what it means, how its components are stored, and its id.
#[derive(Debug, Clone, Copy, PartialEq, Eq, Structural)]
pub struct Attribute {
    pub att_type: u8,
    pub data_type: u8,
    pub num_components: u8,
    pub normalized: u8,
    pub dec_unique_id: u32,
}

/// The error a failed varint read gives inside the attribute section: `Truncated` when the
/// input ends inside it, `InvalidHeader` otherwise.
pub open spec fn attribute_varint_error_of(s: Seq<u8>) -> DecodeError {
    if varuint_truncated(s) {
        DecodeError::Truncated
    } else {
        DecodeError::InvalidHeader
    }
}

/// Maps a varint failure inside the attribute section to the section's own error.
fn attribute_varint_error(e: DecodeError) -> (r: DecodeError)
    ensures
        e == DecodeError::Truncated ==> r == DecodeError::Truncated,
        e != DecodeError::Truncated ==> r == DecodeError::InvalidHeader,
{
    if e == DecodeError::Truncated {
        DecodeError::Truncated
    } else {
        DecodeError::InvalidHeader
    }
}

/// The attribute descriptor at the front of `s` and the bytes it takes, or the error
/// reading it stops at. An id past `u32::MAX` is an `InvalidHeader`.
pub open spec fn attribute_of(s: Seq<u8>) -> Result<(Attribute, nat), DecodeError> {
    if s.len() < 4 {
        Err(DecodeError::Truncated)
    } else {
        match varuint_at(s.skip(4)) {
            None => Err(attribute_varint_error_of(s.skip(4))),
            Some((v, n)) => {
                if v > u32::MAX {
                    Err(DecodeError::InvalidHeader)
                } else {
                    Ok(
                        (
                            Attribute {
                                att_type: s[0],
                                data_type: s[1],
                                num_components: s[2],
                                normalized: s[3],
                                dec_unique_id: v as u32,
                            },
                            4 + n,
                        ),
                    )
                }
            },
        }
    }
}

/// `count` descriptors read one after another from the front of `s`, and the bytes they
/// take; or the error reading them stops at.
pub open spec fn attributes_of(s: Seq<u8>, count: nat) -> Result<(Seq<Attribute>, nat), DecodeError>
    decreases count,
{
    if count == 0 {
        Ok((Seq::<Attribute>::empty(), 0nat))
    } else {
        match attribute_of(s) {
            Err(e) => Err(e),
            Ok((a, k)) => match attributes_of(s.skip(k as int), (count - 1) as nat) {
                Ok((t, m)) => Ok((seq![a].add(t), k + m)),
                Err(e) => Err(e),
            },
        }
    }
}

/// The group at the front of `s`: its descriptors, its method tags and the bytes it takes;
/// or the error reading it stops at. A count above the bytes left is `Truncated`.
pub open spec fn group_of(s: Seq<u8>) -> Result<(Seq<Attribute>, Seq<u8>, nat), DecodeError> {
    match varuint_at(s) {
        None => Err(attribute_varint_error_of(s)),
        Some((c, n)) => {
            if c > s.len() - n {
                Err(DecodeError::Truncated)
            } else {
                match attributes_of(s.skip(n as int), c) {
                    Err(e) => Err(e),
                    Ok((t, m)) => {
                        let r = s.skip((n + m) as int);
                        if r.len() < c {
                            Err(DecodeError::Truncated)
                        } else {
                            Ok((t, r.take(c as int), n + m + c))
                        }
                    },
                }
            }
        },
    }
}

proof fn lemma_attribute_len(s: Seq<u8>)
    requires
        attribute_of(s) is Ok,
    ensures
        attribute_of(s)->Ok_0.1 <= s.len(),
{
    let n = choose|n: nat| varuint_ends_at(s.skip(4), n);
    assert(varuint_ends_at(s.skip(4), n));
}

proof fn lemma_attributes_count(s: Seq<u8>, count: nat)
    requires
        attributes_of(s, count) is Ok,
    ensures
        attributes_of(s, count)->Ok_0.0.len() == count,
    decreases count,
{
    if count > 0 {
        let (a, k) = attribute_of(s)->Ok_0;
        lemma_attributes_count(s.skip(k as int), (count - 1) as nat);
    }
}

impl Attribute {
    /// Reads type, data type, component count and normalized flag (a byte each), then the
    /// unique id as a varint; an id past `u32::MAX` is an `InvalidHeader`.
    pub fn parse(cur: &mut ByteCursor) -> (r: Result<Attribute, DecodeError>)
        requires
            old(cur).wf(),
        ensures
            final(cur).wf(),
            match attribute_of(old(cur).rest()) {
                Ok((a, k)) => r == Ok::<Attribute, DecodeError>(a) && final(cur).rest() == old(cur).rest().skip(
                    k as int,
                ),
                Err(e) => r == Err::<Attribute, DecodeError>(e),
            },
    {
        let ghost s = cur.rest();
        if cur.remaining_len() < 4 {
            return Err(DecodeError::Truncated);
        }
        let att_type = cur.read_u8()?;
        let data_type = cur.read_u8()?;
        let num_components = cur.read_u8()?;
        let normalized = cur.read_u8()?;
        proof {
            assert(cur.rest() =~= s.skip(4));
        }
        let id = match cur.read_varuint() {
            Ok(v) => v,
            Err(e) => {
                return Err(attribute_varint_error(e));
            },
        };
        if id > u32::MAX as u64 {
            return Err(DecodeError::InvalidHeader);
        }
        proof {
            let (v, n) = varuint_at(s.skip(4))->Some_0;
            lemma_attribute_len(s);
            assert(s.skip(4).skip(n as int) =~= s.skip((4 + n) as int));
        }
        Ok(Attribute { att_type, data_type, num_components, normalized, dec_unique_id: id as u32 })
    }
}

/// Prefixes read descriptors and their byte count to the read of what follows them.
pub open spec fn attrs_after(out: Seq<Attribute>, used: nat, r: Result<(Seq<Attribute>, nat), DecodeError>) -> Result<(Seq<Attribute>, nat), DecodeError> {
    match r {
        Ok((t, m)) => Ok((out.add(t), used + m)),
        Err(e) => Err(e),
    }
}

/// The attributes of one decoder group and the decoding-method tag of each.
#[derive(Debug)]
pub struct Attributes {
    pub attributes: Vec<Attribute>,
    pub decoded_types: Vec<u8>,
}

/// Reads `count` descriptors one after another.
fn parse_attribute_list(cur: &mut ByteCursor, count: usize) -> (r: Result<Vec<Attribute>, DecodeError>)
    requires
        old(cur).wf(),
    ensures
        final(cur).wf(),
        match attributes_of(old(cur).rest(), count as nat) {
            Ok((t, m)) => r is Ok && r->Ok_0@ == t && m <= old(cur).rest().len() && final(cur).rest()
                == old(cur).rest().skip(m as int),
            Err(e) => r == Err::<Vec<Attribute>, DecodeError>(e),
        },
{
    let ghost s1 = cur.rest();
    let ghost whole = attributes_of(s1, count as nat);
    let mut attributes: Vec<Attribute> = Vec::new();
    let ghost mut used: nat = 0;
    proof {
        assert(cur.rest() =~= s1.skip(0));
        match whole {
            Ok((t, m)) => {
                assert(Seq::<Attribute>::empty().add(t) =~= t);
            },
            Err(_) => {},
        }
    }
    let mut i: usize = 0;
    while i < count
        invariant
            cur.wf(),
            i <= count,
            attributes@.len() == i,
            used <= s1.len(),
            s1 == old(cur).rest(),
            cur.rest() == s1.skip(used as int),
            whole == attributes_of(s1, count as nat),
            whole == attrs_after(attributes@, used, attributes_of(cur.rest(), (count - i) as nat)),
        decreases count - i,
    {
        let ghost before = cur.rest();
        let a = match Attribute::parse(cur) {
            Ok(a) => a,
            Err(e) => {
                assert(attributes_of(before, (count - i) as nat) == Err::<(Seq<Attribute>, nat), DecodeError>(e));
                return Err(e);
            },
        };
        proof {
            let (a2, k) = attribute_of(before)->Ok_0;
            lemma_attribute_len(before);
            assert(s1.skip(used as int).skip(k as int) =~= s1.skip((used + k) as int));
            match attributes_of(cur.rest(), (count - i - 1) as nat) {
                Ok((t, m)) => {
                    assert(attributes@.push(a).add(t) =~= attributes@.add(seq![a].add(t)));
                },
                Err(_) => {},
            }
            used = used + k;
        }
        attributes.push(a);
        i = i + 1;
    }
    proof {
        assert(attributes@.add(Seq::<Attribute>::empty()) =~= attributes@);
    }
    Ok(attributes)
}

/// Reads `count` tag bytes.
fn read_tags(cur: &mut ByteCursor, count: usize) -> (r: Result<Vec<u8>, DecodeError>)
    requires
        old(cur).wf(),
    ensures
        final(cur).wf(),
        old(cur).rest().len() < count ==> r == Err::<Vec<u8>, DecodeError>(DecodeError::Truncated),
        old(cur).rest().len() >= count ==> r is Ok && r->Ok_0@ == old(cur).rest().take(count as int)
            && final(cur).rest() == old(cur).rest().skip(count as int),
{
    let ghost t = cur.rest();
    let mut decoded_types: Vec<u8> = Vec::new();
    let mut j: usize = 0;
    assert(t.skip(0) =~= t);
    while j < count
        invariant
            cur.wf(),
            j <= count,
            t == old(cur).rest(),
            decoded_types@.len() == j,
            j <= t.len(),
            cur.rest() == t.skip(j as int),
            decoded_types@ == t.subrange(0, j as int),
        decreases count - j,
    {
        let b = match cur.read_u8() {
            Ok(b) => b,
            Err(e) => {
                return Err(e);
            },
        };
        decoded_types.push(b);
        proof {
            assert(t.skip(j as int).skip(1) =~= t.skip(j + 1));
            assert(decoded_types@ =~= t.subrange(0, j + 1));
        }
        j = j + 1;
    }
    assert(decoded_types@ =~= t.take(count as int));
    Ok(decoded_types)
}

impl Attributes {
    /// Reads the attribute count (a varint), that many attributes, then one
    /// decoding-method tag byte per attribute.
    pub fn parse(cur: &mut ByteCursor) -> (r: Result<Attributes, DecodeError>)
        requires
            old(cur).wf(),
        ensures
            final(cur).wf(),
            r matches Ok(g) ==> g.attributes@.len() == g.decoded_types@.len(),
            match group_of(old(cur).rest()) {
                Ok((t, tags, k)) => {
                    &&& r is Ok
                    &&& r->Ok_0.attributes@ == t
                    &&& r->Ok_0.decoded_types@ == tags
                    &&& final(cur).rest() == old(cur).rest().skip(k as int)
                },
                Err(e) => r == Err::<Attributes, DecodeError>(e),
            },
    {
        let ghost s = cur.rest();
        let count = match cur.read_varuint() {
            Ok(v) => v,
            Err(e) => {
                return Err(attribute_varint_error(e));
            },
        };
        let ghost n = varuint_at(s)->Some_0.1;
        let ghost s1 = cur.rest();
        proof {
            let m = choose|m: nat| varuint_ends_at(s, m);
            assert(varuint_ends_at(s, m));
        }
        if count > cur.remaining_len() as u64 {
            return Err(DecodeError::Truncated);
        }
        let count = count as usize;
        let attributes = parse_attribute_list(cur, count)?;
        let ghost t = cur.rest();
        proof {
            lemma_attributes_count(s1, count as nat);
            let m = attributes_of(s1, count as nat)->Ok_0.1;
            assert(s1.skip(m as int) =~= s.skip((n + m) as int));
        }
        let decoded_types = read_tags(cur, count)?;
        proof {
            let m = attributes_of(s1, count as nat)->Ok_0.1;
            assert(t.skip(count as int) =~= s.skip((n + m + count) as int));
        }
        Ok(Attributes { attributes, decoded_types })
    }
}

/// How one attribute decoder of an Edgebreaker mesh walks the corner table.
#[derive(Debug, Clone, Copy, PartialEq, Eq, Structural)]
pub struct AttributeDecoder {
    pub data_id: u8,
    pub decoder_type: u8,
    pub traversal_method: u8,
}

impl AttributeDecoder {
    /// Reads the data id, decoder type and traversal method, a byte each.
    pub fn parse(cur: &mut ByteCursor) -> (r: Result<AttributeDecoder, DecodeError>)
        requires
            old(cur).wf(),
        ensures
            final(cur).wf(),
            old(cur).rest().len() < 3 ==> r == Err::<AttributeDecoder, DecodeError>(DecodeError::Truncated),
            old(cur).rest().len() >= 3 ==> r == Ok::<AttributeDecoder, DecodeError>(
                AttributeDecoder {
                    data_id: old(cur).rest()[0],
                    decoder_type: old(cur).rest()[1],
                    traversal_method: old(cur).rest()[2],
                },
            ) && final(cur).rest() == old(cur).rest().skip(3),
    {
        let ghost s = cur.rest();
        if cur.remaining_len() < 3 {
            return Err(DecodeError::Truncated);
        }
        let data_id = cur.read_u8()?;
        let decoder_type = cur.read_u8()?;
        let traversal_method = cur.read_u8()?;
        proof {
            assert(cur.rest() =~= s.skip(3));
        }
        Ok(AttributeDecoder { data_id, decoder_type, traversal_method })
    }
}

/// The attribute section: the Edgebreaker traversal records, if any, and the groups.
#[derive(Debug)]
pub struct AttributeDecodersData {
    pub attribute_decoders: Option<Vec<AttributeDecoder>>,
    pub attributes: Vec<Attributes>,
}

/// `count` groups read one after another from the front of `s` (descriptors and tags of
/// each), and the bytes they take; or the error reading them stops at.
pub open spec fn groups_of(s: Seq<u8>, count: nat) -> Result<(Seq<(Seq<Attribute>, Seq<u8>)>, nat), DecodeError>
    decreases count,
{
    if count == 0 {
        Ok((Seq::empty(), 0nat))
    } else {
        match group_of(s) {
            Err(e) => Err(e),
            Ok((t, tags, k)) => match groups_of(s.skip(k as int), (count - 1) as nat) {
                Ok((g, m)) => Ok((seq![(t, tags)].add(g), k + m)),
                Err(e) => Err(e),
            },
        }
    }
}

/// The contents of parsed groups.
pub open spec fn groups_view(v: Seq<Attributes>) -> Seq<(Seq<Attribute>, Seq<u8>)> {
    v.map_values(|a: Attributes| (a.attributes@, a.decoded_types@))
}

/// `count` three-byte traversal records at the front of `s`.
pub open spec fn records_of(s: Seq<u8>, count: nat) -> Seq<AttributeDecoder> {
    Seq::new(
        count,
        |i: int| AttributeDecoder { data_id: s[3 * i], decoder_type: s[3 * i + 1], traversal_method: s[3 * i + 2] },
    )
}

/// The attribute section at the front of `s`: the traversal records (present for an
/// Edgebreaker mesh), the groups, and the bytes it takes; or the error reading it stops at.
pub open spec fn section_of(edgebreaker: bool, s: Seq<u8>) -> Result<(Seq<AttributeDecoder>, Seq<(Seq<Attribute>, Seq<u8>)>, nat), DecodeError> {
    if s.len() == 0 {
        Err(DecodeError::Truncated)
    } else {
        let c = s[0] as nat;
        let r: nat = if edgebreaker { 3 * c } else { 0 };
        if s.len() - 1 < r {
            Err(DecodeError::Truncated)
        } else {
            match groups_of(s.skip((1 + r) as int), c) {
                Err(e) => Err(e),
                Ok((g, m)) => Ok((records_of(s.skip(1), if edgebreaker { c } else { 0 }), g, 1 + r + m)),
            }
        }
    }
}

proof fn lemma_attributes_len(s: Seq<u8>, count: nat)
    requires
        attributes_of(s, count) is Ok,
    ensures
        attributes_of(s, count)->Ok_0.1 <= s.len(),
    decreases count,
{
    if count > 0 {
        let (a, k) = attribute_of(s)->Ok_0;
        lemma_attribute_len(s);
        lemma_attributes_len(s.skip(k as int), (count - 1) as nat);
    }
}

proof fn lemma_groups_len(s: Seq<u8>, count: nat)
    requires
        groups_of(s, count) is Ok,
    ensures
        groups_of(s, count)->Ok_0.1 <= s.len(),
    decreases count,
{
    if count > 0 {
        let (t, tags, k) = group_of(s)->Ok_0;
        lemma_group_len(s);
        lemma_groups_len(s.skip(k as int), (count - 1) as nat);
    }
}

proof fn lemma_group_len(s: Seq<u8>)
    requires
        group_of(s) is Ok,
    ensures
        group_of(s)->Ok_0.2 <= s.len(),
{
    let n = choose|n: nat| varuint_ends_at(s, n);
    assert(varuint_ends_at(s, n));
    let (c, n2) = varuint_at(s)->Some_0;
    lemma_attributes_len(s.skip(n2 as int), c);
}

/// Reads `count` groups one after another.
fn parse_group_list(cur: &mut ByteCursor, count: u8) -> (r: Result<Vec<Attributes>, DecodeError>)
    requires
        old(cur).wf(),
    ensures
        final(cur).wf(),
        match groups_of(old(cur).rest(), count as nat) {
            Ok((g, m)) => r is Ok && groups_view(r->Ok_0@) == g && m <= old(cur).rest().len()
                && final(cur).rest() == old(cur).rest().skip(m as int),
            Err(e) => r == Err::<Vec<Attributes>, DecodeError>(e),
        },
{
    let ghost s1 = cur.rest();
    let ghost whole = groups_of(s1, count as nat);
    let mut groups: Vec<Attributes> = Vec::new();
    let ghost mut used: nat = 0;
    proof {
        assert(cur.rest() =~= s1.skip(0));
        assert(groups_view(groups@) =~= Seq::<(Seq<Attribute>, Seq<u8>)>::empty());
        match whole {
            Ok((g, m)) => {
                assert(Seq::<(Seq<Attribute>, Seq<u8>)>::empty().add(g) =~= g);
            },
            Err(_) => {},
        }
    }
    let mut i: u8 = 0;
    while i < count
        invariant
            cur.wf(),
            i <= count,
            used <= s1.len(),
            s1 == old(cur).rest(),
            cur.rest() == s1.skip(used as int),
            whole == groups_of(s1, count as nat),
            whole == match groups_of(cur.rest(), (count - i) as nat) {
                Ok((g, m)) => Ok((groups_view(groups@).add(g), used + m)),
                Err(e) => Err(e),
            },
        decreases count - i,
    {
        let ghost before = cur.rest();
        let a = match Attributes::parse(cur) {
            Ok(a) => a,
            Err(e) => {
                assert(groups_of(before, (count - i) as nat) == Err::<(Seq<(Seq<Attribute>, Seq<u8>)>, nat), DecodeError>(e));
                return Err(e);
            },
        };
        let ghost old_groups = groups@;
        groups.push(a);
        proof {
            let (t, tags, k) = group_of(before)->Ok_0;
            lemma_group_len(before);
            assert(s1.skip(used as int).skip(k as int) =~= s1.skip((used + k) as int));
            assert(groups_view(groups@) =~= groups_view(old_groups).push((t, tags)));
            match groups_of(cur.rest(), (count - i - 1) as nat) {
                Ok((g, m)) => {
                    assert(groups_view(old_groups).push((t, tags)).add(g) =~= groups_view(old_groups).add(seq![(t, tags)].add(g)));
                },
                Err(_) => {},
            }
            used = used + k;
        }
        i = i + 1;
    }
    proof {
        assert(groups_view(groups@).add(Seq::<(Seq<Attribute>, Seq<u8>)>::empty()) =~= groups_view(groups@));
    }
    Ok(groups)
}

impl AttributeDecodersData {
    /// Reads the group count (one byte), for an Edgebreaker mesh one traversal record per
    /// group, then each group.
    pub fn parse(header: &Header, cur: &mut ByteCursor) -> (r: Result<AttributeDecodersData, DecodeError>)
        requires
            old(cur).wf(),
        ensures
            final(cur).wf(),
            match section_of(header.encoder_method == EncoderMethod::MeshEdgebreaker, old(cur).rest()) {
                Ok((recs, g, k)) => {
                    &&& r is Ok
                    &&& (r->Ok_0.attribute_decoders is Some <==> header.encoder_method
                        == EncoderMethod::MeshEdgebreaker)
                    &&& r->Ok_0.attribute_decoders matches Some(v) ==> v@ == recs
                    &&& groups_view(r->Ok_0.attributes@) == g
                    &&& final(cur).rest() == old(cur).rest().skip(k as int)
                },
                Err(e) => r == Err::<AttributeDecodersData, DecodeError>(e),
            },
    {
        let ghost s = cur.rest();
        let ghost eb = header.encoder_method == EncoderMethod::MeshEdgebreaker;
        let num = cur.read_u8()?;
        proof {
            assert(cur.rest() == s.skip(1));
        }
        let attribute_decoders = if header.encoder_method == EncoderMethod::MeshEdgebreaker {
            let mut decs: Vec<AttributeDecoder> = Vec::new();
            let mut i: u8 = 0;
            while i < num
                invariant
                    cur.wf(),
                    i <= num,
                    s == old(cur).rest(),
                    header.encoder_method == EncoderMethod::MeshEdgebreaker,
                    num == s[0],
                    s.len() >= 1 + 3 * i,
                    cur.rest() == s.skip(1 + 3 * i),
                    decs@ == records_of(s.skip(1), i as nat),
                decreases num - i,
            {
                let ghost before = cur.rest();
                let d = match AttributeDecoder::parse(cur) {
                    Ok(d) => d,
                    Err(e) => {
                        assert(s.len() - 1 < 3 * num);
                        return Err(e);
                    },
                };
                decs.push(d);
                proof {
                    assert(s.skip(1 + 3 * i).skip(3) =~= s.skip(1 + 3 * (i + 1)));
                    assert(decs@ =~= records_of(s.skip(1), (i + 1) as nat));
                }
                i = i + 1;
            }
            Some(decs)
        } else {
            None
        };
        let ghost r0: nat = if eb { 3 * num as nat } else { 0 };
        proof {
            if !eb {
                assert(records_of(s.skip(1), 0) =~= Seq::<AttributeDecoder>::empty());
            }
        }
        let attributes = parse_group_list(cur, num)?;
        proof {
            let (g, m) = groups_of(s.skip((1 + r0) as int), num as nat)->Ok_0;
            assert(s.skip((1 + r0) as int).skip(m as int) =~= s.skip((1 + r0 + m) as int));
        }
        Ok(AttributeDecodersData { attribute_decoders, attributes })
    }
}

/// A selector byte names a scheme that the connectivity supports.
pub open spec fn selector_ok(b: u8, has_topology: bool) -> bool {
    scheme_of(b) is Some && (needs_topology(scheme_of(b)->Some_0) ==> has_topology)
}

/// What reading `n` selector bytes from the front of `s` stops at: `Ok` when all are read,
/// else `Truncated`, `UnknownPredictionScheme` or `PredictionRequiresTopology` for the first
/// one that cannot be.
pub open spec fn selectors_result(s: Seq<u8>, n: nat, has_topology: bool) -> Result<(), DecodeError>
    decreases n,
{
    if n == 0 {
        Ok(())
    } else if s.len() == 0 {
        Err(DecodeError::Truncated)
    } else if scheme_of(s[0]) is None {
        Err(DecodeError::UnknownPredictionScheme)
    } else if needs_topology(scheme_of(s[0])->Some_0) && !has_topology {
        Err(DecodeError::PredictionRequiresTopology)
    } else {
        selectors_result(s.skip(1), (n - 1) as nat, has_topology)
    }
}

/// Reads the prediction-scheme selector byte of each attribute of a group.
pub fn decode_portable_attributes(attributes: &Attributes, has_topology: bool, cur: &mut ByteCursor) -> (r: Result<
    Vec<PredictionScheme>,
    DecodeError,
>)
    requires
        old(cur).wf(),
    ensures
        final(cur).wf(),
        ({
            let s = old(cur).rest();
            let n = attributes.attributes@.len();
            &&& (r is Ok <==> (s.len() >= n && forall|i: int|
                0 <= i < n ==> #[trigger] selector_ok(s[i], has_topology)))
            &&& selectors_result(s, n, has_topology) matches Err(e) ==> r == Err::<Vec<PredictionScheme>, DecodeError>(e)
            &&& (r is Ok <==> selectors_result(s, n, has_topology) is Ok)
            &&& r matches Ok(v) ==> v@.len() == n && (forall|i: int|
                0 <= i < n ==> scheme_of(s[i]) == Some(#[trigger] v@[i])) && final(cur).rest() == s.skip(
                n as int,
            )
        }),
{
    let ghost s = cur.rest();
    let n = attributes.attributes.len();
    assert(s.skip(0) =~= s);
    let mut schemes: Vec<PredictionScheme> = Vec::new();
    let mut i: usize = 0;
    while i < n
        invariant
            cur.wf(),
            i <= n,
            n == attributes.attributes@.len(),
            s == old(cur).rest(),
            s.len() >= i,
            cur.rest() == s.skip(i as int),
            schemes@.len() == i,
            forall|j: int| 0 <= j < i ==> scheme_of(s[j]) == Some(#[trigger] schemes@[j]),
            forall|j: int| 0 <= j < i ==> #[trigger] selector_ok(s[j], has_topology),
            selectors_result(s, n as nat, has_topology) == selectors_result(s.skip(i as int), (n - i) as nat, has_topology),
        decreases n - i,
    {
        let b = match cur.read_u8() {
            Ok(b) => b,
            Err(e) => {
                assert(s.skip(i as int).len() == s.len() - i);
                return Err(e);
            },
        };
        proof {
            assert(b == s[i as int]);
            assert(cur.rest() =~= s.skip(i + 1));
            assert(s.skip(i as int)[0] == b);
            assert(s.skip(i as int).skip(1) =~= s.skip(i + 1));
        }
        let p = match PredictionScheme::parse(b, has_topology) {
            Ok(p) => p,
            Err(e) => {
                assert(!selector_ok(s[i as int], has_topology));
                return Err(e);
            },
        };
        schemes.push(p);
        i = i + 1;
    }
    Ok(schemes)
}

/// The bytes that the selectors of the groups `g` take at the front of `t`, one per
/// attribute, group after group; or the error reading them stops at.
pub open spec fn selectors_all(t: Seq<u8>, g: Seq<(Seq<Attribute>, Seq<u8>)>, has_topology: bool) -> Result<nat, DecodeError>
    decreases g.len(),
{
    if g.len() == 0 {
        Ok(0nat)
    } else {
        let n = g[0].0.len();
        match selectors_result(t, n, has_topology) {
            Err(e) => Err(e),
            Ok(_) => match selectors_all(t.skip(n as int), g.drop_first(), has_topology) {
                Ok(m) => Ok(n + m),
                Err(e) => Err(e),
            },
        }
    }
}

/// The bytes the attribute section at the front of `s` takes, selectors included, or the
/// error decoding stops at. An Edgebreaker mesh with groups needs every corner of `pts`
/// to reference a point below `num_points`.
pub open spec fn attribute_data_of(edgebreaker: bool, num_points: u32, pts: Seq<u32>, s: Seq<u8>) -> Result<nat, DecodeError> {
    match section_of(edgebreaker, s) {
        Err(e) => Err(e),
        Ok((recs, g, k)) => {
            if g.len() > 0 && edgebreaker && !(forall|c: int| 0 <= c < pts.len() ==> #[trigger] pts[c] < num_points) {
                Err(DecodeError::MalformedConnectivity)
            } else {
                match selectors_all(s.skip(k as int), g, edgebreaker) {
                    Ok(m) => Ok(k + m),
                    Err(e) => Err(e),
                }
            }
        },
    }
}

/// The decode plan of an attribute section: its groups, the value order of each group,
/// and the prediction scheme of each attribute.
pub struct AttributeLayout {
    pub data: AttributeDecodersData,
    pub sequences: Vec<Vec<u32>>,
    pub schemes: Vec<Vec<PredictionScheme>>,
}

/// Parses the attribute section, derives the value order of every group from the
/// connectivity, and reads the prediction-scheme selectors.
pub fn decode_attribute_data(header: &Header, num_points: u32, table: &CornerTable, cur: &mut ByteCursor) -> (r:
    Result<AttributeLayout, DecodeError>)
    requires
        old(cur).wf(),
    ensures
        final(cur).wf(),
        match attribute_data_of(
            header.encoder_method == EncoderMethod::MeshEdgebreaker,
            num_points,
            table.points(),
            old(cur).rest(),
        ) {
            Ok(k) => r is Ok && final(cur).rest() == old(cur).rest().skip(k as int),
            Err(e) => r == Err::<AttributeLayout, DecodeError>(e),
        },
        r matches Ok(l) ==> {
            &&& l.sequences@.len() == l.data.attributes@.len()
            &&& l.schemes@.len() == l.data.attributes@.len()
            &&& forall|g: int| 0 <= g < l.schemes@.len() ==> #[trigger] l.schemes@[g]@.len()
                == l.data.attributes@[g].attributes@.len()
            &&& header.encoder_method == EncoderMethod::MeshSequential ==> forall|g: int|
                0 <= g < l.sequences@.len() ==> is_identity(#[trigger] l.sequences@[g]@, num_points as nat)
            &&& header.encoder_method == EncoderMethod::MeshSequential ==> forall|g: int, a: int|
                0 <= g < l.schemes@.len() && 0 <= a < l.schemes@[g]@.len() ==> !needs_topology(
                    #[trigger] l.schemes@[g]@[a],
                )
        },
{
    let ghost s0 = cur.rest();
    let ghost eb = header.encoder_method == EncoderMethod::MeshEdgebreaker;
    let data = AttributeDecodersData::parse(header, cur)?;
    let ghost after = cur.rest();
    let ghost gv = groups_view(data.attributes@);
    let ghost k0 = section_of(eb, s0)->Ok_0.2;
    let groups = data.attributes.len();
    let mut sequences: Vec<Vec<u32>> = Vec::new();
    let mut g: usize = 0;
    while g < groups
        invariant
            cur.wf(),
            cur.rest() == after,
            g <= groups,
            groups == data.attributes@.len(),
            eb == (header.encoder_method == EncoderMethod::MeshEdgebreaker),
            g > 0 && eb ==> (forall|c: int| 0 <= c < table.points().len() ==> #[trigger] table.points()[c] < num_points),
            gv == groups_view(data.attributes@),
            section_of(eb, s0) matches Ok((recs, gg, kk)) && gg == gv && kk == k0,
            s0 == old(cur).rest(),
            sequences@.len() == g,
            header.encoder_method == EncoderMethod::MeshSequential ==> forall|h: int|
                0 <= h < g ==> is_identity(#[trigger] sequences@[h]@, num_points as nat),
        decreases groups - g,
    {
        let s = match generate_sequence(header, num_points, table) {
            Ok(s) => s,
            Err(e) => {
                proof {
                    assert(gv.len() == groups);
                    assert(!(forall|c: int| 0 <= c < table.points().len() ==> #[trigger] table.points()[c] < num_points));
                }
                return Err(e);
            },
        };
        sequences.push(s);
        g = g + 1;
    }
    proof {
        let c = s0[0] as nat;
        let r: nat = if eb { 3 * c } else { 0 };
        lemma_groups_len(s0.skip((1 + r) as int), c);
        assert(k0 <= s0.len());
        assert(after == s0.skip(k0 as int));
        assert(gv.len() == groups);
        assert(after.skip(0) =~= after);
        assert(gv.skip(0) =~= gv);
    }
    let ghost mut used: nat = 0;
    let has_topology = header.encoder_method == EncoderMethod::MeshEdgebreaker;
    let mut schemes: Vec<Vec<PredictionScheme>> = Vec::new();
    let mut g: usize = 0;
    while g < groups
        invariant
            cur.wf(),
            g <= groups,
            groups == data.attributes@.len(),
            gv == groups_view(data.attributes@),
            has_topology == (header.encoder_method == EncoderMethod::MeshEdgebreaker),
            has_topology == eb,
            eb && groups > 0 ==> (forall|c: int| 0 <= c < table.points().len() ==> #[trigger] table.points()[c] < num_points),
            section_of(eb, s0) matches Ok((recs, gg, kk)) && gg == gv && kk == k0,
            s0 == old(cur).rest(),
            after == s0.skip(k0 as int),
            used <= after.len(),
            cur.rest() == after.skip(used as int),
            selectors_all(after, gv, eb) == match selectors_all(cur.rest(), gv.skip(g as int), eb) {
                Ok(m) => Ok(used + m),
                Err(e) => Err(e),
            },
            schemes@.len() == g,
            forall|h: int| 0 <= h < g ==> #[trigger] schemes@[h]@.len() == data.attributes@[h].attributes@.len(),
            header.encoder_method == EncoderMethod::MeshSequential ==> forall|h: int, a: int|
                0 <= h < g && 0 <= a < schemes@[h]@.len() ==> !needs_topology(#[trigger] schemes@[h]@[a]),
        decreases groups - g,
    {
        let ghost s = cur.rest();
        proof {
            assert(gv.skip(g as int)[0] == gv[g as int]);
            assert(gv.skip(g as int).drop_first() =~= gv.skip(g + 1));
            assert(gv[g as int].0 == data.attributes@[g as int].attributes@);
        }
        let v = match decode_portable_attributes(&data.attributes[g], has_topology, cur) {
            Ok(v) => v,
            Err(e) => {
                proof {
                    let n = data.attributes@[g as int].attributes@.len();
                    assert(gv.skip(g as int).len() > 0);
                    assert(selectors_result(s, n, eb) == Err::<(), DecodeError>(e));
                    assert(selectors_all(s, gv.skip(g as int), eb) == Err::<nat, DecodeError>(e));
                    assert(selectors_all(after, gv, eb) == Err::<nat, DecodeError>(e));
                }
                return Err(e);
            },
        };
        proof {
            let n = data.attributes@[g as int].attributes@.len();
            assert(after.skip(used as int).skip(n as int) =~= after.skip((used + n) as int));
            used = used + n;
            if header.encoder_method == EncoderMethod::MeshSequential {
                assert forall|a: int| 0 <= a < v@.len() implies !needs_topology(#[trigger] v@[a]) by {
                    assert(scheme_of(s[a]) == Some(v@[a]));
                    assert(selector_ok(s[a], has_topology));
                }
            }
        }
        schemes.push(v);
        g = g + 1;
    }
    proof {
        assert(gv.skip(groups as int).len() == 0);
        assert(after.skip(used as int) =~= s0.skip((k0 + used) as int));
    }
    Ok(AttributeLayout { data, sequences, schemes })
}

} // verus!
