//! Shared wire-level types: header flag fields, record type and class
//! codes, the parse and serialize cursors, and the delegation-server
//! value used by the resolver.

use vstd::prelude::*;

use crate::labels::Labels;

verus! {

/// Query/response bit of the header flags word.
#[derive(Clone, Copy, Debug, PartialEq, Eq, Structural)]
pub enum FlagQR {
    Q,
    R,
}

impl FlagQR {
    /// The field's contribution to the 16-bit flags word.
    pub open spec fn spec_bits(self) -> u16 {
        match self {
            FlagQR::Q => 0,
            FlagQR::R => 0x8000,
        }
    }

    pub fn bits(self) -> (r: u16)
        ensures
            r == self.spec_bits(),
    {
        match self {
            FlagQR::Q => 0,
            FlagQR::R => 0x8000,
        }
    }
}

/// Operation code of the header flags word.
#[derive(Clone, Copy, Debug, PartialEq, Eq, Structural)]
pub enum FlagOpcode {
    Query,
    IQuery,
    Status,
}

impl FlagOpcode {
    /// The opcode's numeric value, before shifting into the flags word.
    pub open spec fn spec_value(self) -> u16 {
        match self {
            FlagOpcode::Query => 0,
            FlagOpcode::IQuery => 1,
            FlagOpcode::Status => 2,
        }
    }

    pub fn value(self) -> (r: u16)
        ensures
            r == self.spec_value(),
    {
        match self {
            FlagOpcode::Query => 0,
            FlagOpcode::IQuery => 1,
            FlagOpcode::Status => 2,
        }
    }
}

/// Authoritative-answer bit of the header flags word.
#[derive(Clone, Copy, Debug, PartialEq, Eq, Structural)]
pub enum FlagAA {
    False,
    True,
}

impl FlagAA {
    pub open spec fn spec_set(self) -> bool {
        self is True
    }
}

/// Truncation bit of the header flags word.
#[derive(Clone, Copy, Debug, PartialEq, Eq, Structural)]
pub enum FlagTC {
    False,
    True,
}

impl FlagTC {
    pub open spec fn spec_set(self) -> bool {
        self is True
    }
}

/// Recursion-desired bit of the header flags word.
#[derive(Clone, Copy, Debug, PartialEq, Eq, Structural)]
pub enum FlagRD {
    False,
    True,
}

impl FlagRD {
    pub open spec fn spec_set(self) -> bool {
        self is True
    }
}

/// Recursion-available bit of the header flags word.
#[derive(Clone, Copy, Debug, PartialEq, Eq, Structural)]
pub enum FlagRA {
    False,
    True,
}

impl FlagRA {
    pub open spec fn spec_set(self) -> bool {
        self is True
    }
}

/// Response code of the header flags word.
#[derive(Clone, Copy, Debug, PartialEq, Eq, Structural)]
pub enum FlagRCode {
    NoError,
    FormErr,
    ServFail,
    NxDomain,
}

impl FlagRCode {
    /// The rcode's numeric value in the low bits of the flags word.
    pub open spec fn spec_value(self) -> u16 {
        match self {
            FlagRCode::NoError => 0,
            FlagRCode::FormErr => 1,
            FlagRCode::ServFail => 2,
            FlagRCode::NxDomain => 3,
        }
    }

    pub fn value(self) -> (r: u16)
        ensures
            r == self.spec_value(),
    {
        match self {
            FlagRCode::NoError => 0,
            FlagRCode::FormErr => 1,
            FlagRCode::ServFail => 2,
            FlagRCode::NxDomain => 3,
        }
    }
}

/// Resource record type code.
#[derive(Clone, Copy, Debug, PartialEq, Eq, Structural)]
pub enum FlagRecordType {
    A,
    NS,
    CNAME,
    SOA,
    AAAA,
}

impl FlagRecordType {
    /// The record type's code on the wire.
    pub open spec fn spec_bits(self) -> u16 {
        match self {
            FlagRecordType::A => 1,
            FlagRecordType::NS => 2,
            FlagRecordType::CNAME => 5,
            FlagRecordType::SOA => 6,
            FlagRecordType::AAAA => 28,
        }
    }

    pub fn bits(self) -> (r: u16)
        ensures
            r == self.spec_bits(),
    {
        match self {
            FlagRecordType::A => 1,
            FlagRecordType::NS => 2,
            FlagRecordType::CNAME => 5,
            FlagRecordType::SOA => 6,
            FlagRecordType::AAAA => 28,
        }
    }

    /// The record type a wire code denotes, if supported.
    pub open spec fn spec_from_bits(code: u16) -> Option<FlagRecordType> {
        if code == 1 {
            Some(FlagRecordType::A)
        } else if code == 2 {
            Some(FlagRecordType::NS)
        } else if code == 5 {
            Some(FlagRecordType::CNAME)
        } else if code == 6 {
            Some(FlagRecordType::SOA)
        } else if code == 28 {
            Some(FlagRecordType::AAAA)
        } else {
            None
        }
    }

    pub fn from_bits(code: u16) -> (r: Option<FlagRecordType>)
        ensures
            r == Self::spec_from_bits(code),
    {
        if code == 1 {
            Some(FlagRecordType::A)
        } else if code == 2 {
            Some(FlagRecordType::NS)
        } else if code == 5 {
            Some(FlagRecordType::CNAME)
        } else if code == 6 {
            Some(FlagRecordType::SOA)
        } else if code == 28 {
            Some(FlagRecordType::AAAA)
        } else {
            None
        }
    }
}

/// Resource record class code.
#[derive(Clone, Copy, Debug, PartialEq, Eq, Structural)]
pub enum FlagClassCode {
    IN,
    CS,
    CH,
    HS,
}

impl FlagClassCode {
    /// The class code on the wire.
    pub open spec fn spec_bits(self) -> u16 {
        match self {
            FlagClassCode::IN => 1,
            FlagClassCode::CS => 2,
            FlagClassCode::CH => 3,
            FlagClassCode::HS => 4,
        }
    }

    pub fn bits(self) -> (r: u16)
        ensures
            r == self.spec_bits(),
    {
        match self {
            FlagClassCode::IN => 1,
            FlagClassCode::CS => 2,
            FlagClassCode::CH => 3,
            FlagClassCode::HS => 4,
        }
    }
}

/// A cursor over one whole inbound datagram. All offsets, including
/// compression-pointer targets, are absolute into `root_buff`, never
/// relative to a sub-slice.
pub struct ParseContext {
    root_buff: Vec<u8>,
    current_idx: usize,
}

impl ParseContext {
    /// The full datagram being parsed.
    pub closed spec fn buf(&self) -> Seq<u8> {
        self.root_buff@
    }

    /// The absolute cursor position.
    pub closed spec fn pos(&self) -> int {
        self.current_idx as int
    }

    pub fn new(buff: Vec<u8>) -> (r: ParseContext)
        ensures
            r.buf() == buff@,
            r.pos() == 0,
    {
        ParseContext { root_buff: buff, current_idx: 0 }
    }

    pub fn current_idx(&self) -> (r: usize)
        ensures
            r == self.pos(),
    {
        self.current_idx
    }

    /// The byte at an absolute offset.
    pub fn byte_at(&self, i: usize) -> (r: u8)
        requires
            i < self.buf().len(),
        ensures
            r == self.buf()[i as int],
    {
        self.root_buff[i]
    }

    /// The whole datagram, for decode routines that take absolute offsets.
    pub fn buf_ref(&self) -> (r: &Vec<u8>)
        ensures
            r@ == self.buf(),
    {
        &self.root_buff
    }

    /// The number of bytes in the whole datagram.
    pub fn len(&self) -> (r: usize)
        ensures
            r == self.buf().len(),
    {
        self.root_buff.len()
    }

    /// The bytes from the cursor to the end of the datagram.
    pub fn current_slice(&self) -> (r: &[u8])
        requires
            self.pos() <= self.buf().len(),
        ensures
            r@ == self.buf().subrange(self.pos(), self.buf().len() as int),
    {
        &self.root_buff[self.current_idx..self.root_buff.len()]
    }

    /// The bytes from an arbitrary absolute offset, used for
    /// compression-pointer jumps.
    pub fn slice_from(&self, idx: usize) -> (r: &[u8])
        requires
            idx <= self.buf().len(),
        ensures
            r@ == self.buf().subrange(idx as int, self.buf().len() as int),
    {
        &self.root_buff[idx..self.root_buff.len()]
    }

    /// Moves the cursor forward by `count` bytes.
    pub fn advance(&mut self, count: usize)
        requires
            old(self).pos() + count <= old(self).buf().len(),
        ensures
            final(self).buf() == old(self).buf(),
            final(self).pos() == old(self).pos() + count,
    {
        let total = self.root_buff.len();
        self.current_idx = self.current_idx + count;
    }
}

/// Copies a byte vector.
pub(crate) fn clone_bytes(v: &Vec<u8>) -> (r: Vec<u8>)
    ensures
        r@ == v@,
{
    let mut out: Vec<u8> = Vec::new();
    let n = v.len();
    let mut i: usize = 0;
    while i < n
        invariant
            i <= n,
            n == v@.len(),
            out@ == v@.subrange(0, i as int),
        decreases n - i,
    {
        out.push(v[i]);
        proof {
            assert(out@ =~= v@.subrange(0, i + 1));
        }
        i = i + 1;
    }
    proof {
        assert(out@ =~= v@);
    }
    out
}

/// Accumulates one outbound datagram together with the map from each
/// name suffix to the absolute offset at which that suffix was first
/// written, which is what makes compression pointers possible.
pub struct SerializeContext {
    root_buff: Vec<u8>,
    label_locations: Vec<(Vec<Vec<u8>>, usize)>,
}

impl SerializeContext {
    /// The bytes accumulated so far.
    pub closed spec fn buf(&self) -> Seq<u8> {
        self.root_buff@
    }

    /// The map an entry list denotes.
    pub closed spec fn assoc_map(entries: Seq<(Vec<Vec<u8>>, usize)>) -> Map<Labels, int>
        decreases entries.len(),
    {
        if entries.len() == 0 {
            Map::empty()
        } else {
            Self::assoc_map(entries.drop_last()).insert(
                entries.last().0.deep_view(),
                entries.last().1 as int,
            )
        }
    }

    /// The suffix-to-offset map recorded so far.
    pub closed spec fn locs(&self) -> Map<Labels, int> {
        Self::assoc_map(self.label_locations@)
    }

    /// Structural invariant: entry keys are pairwise distinct and every
    /// recorded offset fits the 14-bit pointer range.
    pub closed spec fn inv(&self) -> bool {
        let es = self.label_locations@;
        &&& forall|i: int, j: int|
            0 <= i < j < es.len() ==> es[i].0.deep_view() != es[j].0.deep_view()
        &&& forall|i: int| 0 <= i < es.len() ==> (#[trigger] es[i].1) < 16384
    }

    /// An entry's key is in the denoted map, bound to that entry's
    /// offset, as long as no later entry shares the key.
    proof fn lemma_assoc_entry(entries: Seq<(Vec<Vec<u8>>, usize)>, i: int)
        requires
            0 <= i < entries.len(),
            forall|j: int| i < j < entries.len() ==> entries[i].0.deep_view() != (
            #[trigger] entries[j]).0.deep_view(),
        ensures
            Self::assoc_map(entries).dom().contains(entries[i].0.deep_view()),
            Self::assoc_map(entries)[entries[i].0.deep_view()] == entries[i].1 as int,
        decreases entries.len(),
    {
        if i == entries.len() - 1 {
        } else {
            assert(entries.drop_last()[i] == entries[i]);
            Self::lemma_assoc_entry(entries.drop_last(), i);
        }
    }

    /// A key matching no entry is absent from the denoted map.
    proof fn lemma_assoc_absent(entries: Seq<(Vec<Vec<u8>>, usize)>, k: Labels)
        requires
            forall|i: int| 0 <= i < entries.len() ==> (#[trigger] entries[i]).0.deep_view() != k,
        ensures
            !Self::assoc_map(entries).dom().contains(k),
        decreases entries.len(),
    {
        if entries.len() > 0 {
            Self::lemma_assoc_absent(entries.drop_last(), k);
        }
    }

    pub fn new() -> (r: SerializeContext)
        ensures
            r.buf() == Seq::<u8>::empty(),
            r.locs() == Map::<Labels, int>::empty(),
            r.inv(),
    {
        let r = SerializeContext { root_buff: Vec::new(), label_locations: Vec::new() };
        proof {
            assert(r.buf() =~= Seq::<u8>::empty());
        }
        r
    }

    /// The number of bytes accumulated so far: the offset at which the
    /// next byte will be written.
    pub fn buf_len(&self) -> (r: usize)
        ensures
            r == self.buf().len(),
    {
        self.root_buff.len()
    }

    /// The suffix of a name starting at label `start`, used as a key of
    /// the location map.
    pub fn get_labels_key(labels: &Vec<Vec<u8>>, start: usize) -> (key: Vec<Vec<u8>>)
        requires
            start <= labels@.len(),
        ensures
            key.deep_view() == labels.deep_view().skip(start as int),
    {
        let mut out: Vec<Vec<u8>> = Vec::new();
        let n = labels.len();
        let mut i: usize = start;
        while i < n
            invariant
                start <= i <= n,
                n == labels@.len(),
                out@.len() == i - start,
                out.deep_view() =~= labels.deep_view().subrange(start as int, i as int),
            decreases n - i,
        {
            let inner = &labels[i];
            let l = clone_bytes(inner);
            proof {
                crate::labels::lemma_vec_u8_deep_view(l);
                crate::labels::lemma_vec_u8_deep_view(labels@[i as int]);
                assert(l@ == labels@[i as int]@);
                assert(l.deep_view() == labels.deep_view()[i as int]);
            }
            let ghost pre = out@;
            out.push(l);
            proof {
                assert(out@ == pre.push(l));
                assert(out@.len() == i + 1 - start);
                assert(out.deep_view().len() == out@.len());
                assert(labels.deep_view().len() == labels@.len());
                assert forall|k: int| 0 <= k < out@.len() implies out.deep_view()[k]
                    == labels.deep_view().subrange(start as int, i + 1)[k] by {
                    assert(out.deep_view()[k] == out@[k].deep_view());
                    if k < pre.len() {
                        assert(out@[k] == pre[k]);
                    } else {
                        assert(out@[k] == l);
                    }
                }
                assert(out.deep_view() =~= labels.deep_view().subrange(start as int, i + 1));
            }
            i = i + 1;
        }
        proof {
            assert(out.deep_view() =~= labels.deep_view().skip(start as int));
        }
        out
    }

    /// The offset at which the given suffix was first written, if any.
    pub fn get_pointer(&self, key: &Vec<Vec<u8>>) -> (r: Option<usize>)
        requires
            self.inv(),
        ensures
            match r {
                Some(off) => self.locs().dom().contains(key.deep_view()) && self.locs()[
                    key.deep_view()
                ] == off as int && off < 16384,
                None => !self.locs().dom().contains(key.deep_view()),
            },
    {
        let n = self.label_locations.len();
        let mut i: usize = 0;
        while i < n
            invariant
                i <= n,
                n == self.label_locations@.len(),
                self.inv(),
                forall|j: int| 0 <= j < i ==> (#[trigger] self.label_locations@[j]).0.deep_view()
                    != key.deep_view(),
            decreases n - i,
        {
            if crate::labels::labels_eq(&self.label_locations[i].0, key) {
                proof {
                    Self::lemma_assoc_entry(self.label_locations@, i as int);
                }
                return Some(self.label_locations[i].1);
            }
            i = i + 1;
        }
        proof {
            Self::lemma_assoc_absent(self.label_locations@, key.deep_view());
        }
        None
    }

    /// Records the offset at which a suffix was just written. The
    /// offset must fit the 14-bit pointer range, and each suffix is
    /// recorded only once: at the offset where it was first written.
    pub fn set_pointer(&mut self, key: Vec<Vec<u8>>, idx: usize) -> (r: Option<usize>)
        requires
            old(self).inv(),
            !old(self).locs().dom().contains(key.deep_view()),
            idx < 16384,
        ensures
            final(self).inv(),
            final(self).buf() == old(self).buf(),
            final(self).locs() == old(self).locs().insert(key.deep_view(), idx as int),
            r is None,
    {
        proof {
            if exists|i: int|
                0 <= i < self.label_locations@.len() && (
                #[trigger] self.label_locations@[i]).0.deep_view() == key.deep_view() {
                let i = choose|i: int|
                    0 <= i < self.label_locations@.len() && (
                    #[trigger] self.label_locations@[i]).0.deep_view() == key.deep_view();
                Self::lemma_assoc_entry(self.label_locations@, i);
                assert(false);
            }
        }
        let ghost old_entries = self.label_locations@;
        self.label_locations.push((key, idx));
        proof {
            assert(self.label_locations@.drop_last() =~= old_entries);
        }
        None
    }

    /// A copy of the bytes accumulated so far.
    pub fn to_vec(&self) -> (r: Vec<u8>)
        ensures
            r@ == self.buf(),
    {
        clone_bytes(&self.root_buff)
    }

    /// Moves all of `other`'s bytes onto the end of the buffer.
    pub fn append(&mut self, other: &mut Vec<u8>)
        ensures
            final(self).buf() == old(self).buf() + old(other)@,
            final(other)@ == Seq::<u8>::empty(),
            final(self).locs() == old(self).locs(),
            old(self).inv() ==> final(self).inv(),
    {
        self.root_buff.append(other);
    }

    /// Appends one byte.
    pub fn push(&mut self, value: u8)
        ensures
            final(self).buf() == old(self).buf().push(value),
            final(self).locs() == old(self).locs(),
            old(self).inv() ==> final(self).inv(),
    {
        self.root_buff.push(value);
    }

    /// Appends a copy of the given bytes.
    pub fn extend_from_slice(&mut self, value: &[u8])
        ensures
            final(self).buf() == old(self).buf() + value@,
            final(self).locs() == old(self).locs(),
            old(self).inv() ==> final(self).inv(),
    {
        let n = value.len();
        let mut i: usize = 0;
        while i < n
            invariant
                i <= n,
                n == value@.len(),
                self.buf() == old(self).buf() + value@.subrange(0, i as int),
                self.locs() == old(self).locs(),
                self.label_locations@ == old(self).label_locations@,
            decreases n - i,
        {
            self.root_buff.push(value[i]);
            proof {
                assert(self.buf() =~= old(self).buf() + value@.subrange(0, i + 1));
            }
            i = i + 1;
        }
        proof {
            assert(old(self).buf() + value@.subrange(0, n as int) =~= old(self).buf() + value@);
        }
    }
}

/// The mathematical content of a delegation target.
pub struct ServerView {
    pub name: Labels,
    pub ipv4addr: Option<u32>,
    pub ipv6addr: Option<u128>,
    pub port: u16,
}

/// A delegation target: a server name and, once glue or a nested
/// lookup has supplied them, its addresses. Addresses are plain
/// big-endian integers.
#[derive(Debug)]
pub struct DNSServer {
    pub name: crate::labels::LabelSeq,
    pub ipv4addr: Option<u32>,
    pub ipv6addr: Option<u128>,
    pub port: u16,
}

impl View for DNSServer {
    type V = ServerView;

    open spec fn view(&self) -> ServerView {
        ServerView {
            name: self.name@,
            ipv4addr: self.ipv4addr,
            ipv6addr: self.ipv6addr,
            port: self.port,
        }
    }
}

impl DeepView for DNSServer {
    type V = ServerView;

    open spec fn deep_view(&self) -> ServerView {
        self@
    }
}

impl Clone for DNSServer {
    fn clone(&self) -> (r: Self)
        ensures
            r@ == self@,
    {
        DNSServer {
            name: self.name.clone(),
            ipv4addr: self.ipv4addr,
            ipv6addr: self.ipv6addr,
            port: self.port,
        }
    }
}

/// A 32-bit address from its four dotted-quad parts.
pub open spec fn spec_ipv4(a: u8, b: u8, c: u8, d: u8) -> u32 {
    (a as u32 * 0x1000000 + b as u32 * 0x10000 + c as u32 * 0x100 + d as u32) as u32
}

pub fn ipv4_value(a: u8, b: u8, c: u8, d: u8) -> (r: u32)
    ensures
        r == spec_ipv4(a, b, c, d),
{
    a as u32 * 0x1000000 + b as u32 * 0x10000 + c as u32 * 0x100 + d as u32
}

/// A 128-bit address from its eight colon-separated groups.
pub open spec fn spec_ipv6(
    g0: u16,
    g1: u16,
    g2: u16,
    g3: u16,
    g4: u16,
    g5: u16,
    g6: u16,
    g7: u16,
) -> u128 {
    (g0 as u128 * 0x10000000000000000000000000000 + g1 as u128 * 0x1000000000000000000000000
        + g2 as u128 * 0x100000000000000000000 + g3 as u128 * 0x10000000000000000 + g4 as u128
        * 0x1000000000000 + g5 as u128 * 0x100000000 + g6 as u128 * 0x10000 + g7 as u128) as u128
}

pub fn ipv6_value(g0: u16, g1: u16, g2: u16, g3: u16, g4: u16, g5: u16, g6: u16, g7: u16) -> (r:
    u128)
    ensures
        r == spec_ipv6(g0, g1, g2, g3, g4, g5, g6, g7),
{
    g0 as u128 * 0x10000000000000000000000000000 + g1 as u128 * 0x1000000000000000000000000 + g2
        as u128 * 0x100000000000000000000 + g3 as u128 * 0x10000000000000000 + g4 as u128
        * 0x1000000000000 + g5 as u128 * 0x100000000 + g6 as u128 * 0x10000 + g7 as u128
}

/// The labels of a root server's name: one letter, then
/// "root-servers", then "net".
pub open spec fn spec_root_name(c: u8) -> Labels {
    seq![
        seq![c],
        seq![('r' as u8), ('o' as u8), ('o' as u8), ('t' as u8), ('-' as u8), ('s' as u8), ('e' as u8), ('r' as u8), ('v' as u8), ('e' as u8), ('r' as u8), ('s' as u8)],
        seq![('n' as u8), ('e' as u8), ('t' as u8)],
    ]
}

/// One entry of the root server table.
pub open spec fn spec_root_server(c: u8, v4: u32, v6: u128) -> ServerView {
    ServerView { name: spec_root_name(c), ipv4addr: Some(v4), ipv6addr: Some(v6), port: 53 }
}

/// The thirteen well-known root servers, with their published IPv4
/// and IPv6 addresses, all on port 53.
pub open spec fn spec_root_servers() -> Seq<ServerView> {
    seq![
        spec_root_server(('a' as u8), spec_ipv4(198, 41, 0, 4), spec_ipv6(0x2001, 0x503, 0xba3e, 0, 0, 0, 0x2, 0x30)),
        spec_root_server(('b' as u8), spec_ipv4(170, 247, 170, 2), spec_ipv6(0x2801, 0x1b8, 0x10, 0, 0, 0, 0, 0xb)),
        spec_root_server(('c' as u8), spec_ipv4(192, 33, 4, 12), spec_ipv6(0x2001, 0x500, 0x2, 0, 0, 0, 0, 0xc)),
        spec_root_server(('d' as u8), spec_ipv4(199, 7, 91, 13), spec_ipv6(0x2001, 0x500, 0x2d, 0, 0, 0, 0, 0xd)),
        spec_root_server(('e' as u8), spec_ipv4(192, 203, 230, 10), spec_ipv6(0x2001, 0x500, 0xa8, 0, 0, 0, 0, 0xe)),
        spec_root_server(('f' as u8), spec_ipv4(192, 5, 5, 241), spec_ipv6(0x2001, 0x500, 0x2f, 0, 0, 0, 0, 0xf)),
        spec_root_server(('g' as u8), spec_ipv4(192, 112, 36, 4), spec_ipv6(0x2001, 0x500, 0x12, 0, 0, 0, 0, 0xd0d)),
        spec_root_server(('h' as u8), spec_ipv4(198, 97, 190, 53), spec_ipv6(0x2001, 0x500, 0x1, 0, 0, 0, 0, 0x53)),
        spec_root_server(('i' as u8), spec_ipv4(192, 36, 148, 17), spec_ipv6(0x2001, 0x7fe, 0, 0, 0, 0, 0, 0x53)),
        spec_root_server(('j' as u8), spec_ipv4(192, 58, 128, 30), spec_ipv6(0x2001, 0x503, 0xc27, 0, 0, 0, 0x2, 0x30)),
        spec_root_server(('k' as u8), spec_ipv4(193, 0, 14, 129), spec_ipv6(0x2001, 0x7fd, 0, 0, 0, 0, 0, 0x1)),
        spec_root_server(('l' as u8), spec_ipv4(199, 7, 83, 42), spec_ipv6(0x2001, 0x500, 0x9f, 0, 0, 0, 0, 0x42)),
        spec_root_server(('m' as u8), spec_ipv4(202, 12, 27, 33), spec_ipv6(0x2001, 0xdc3, 0, 0, 0, 0, 0, 0x35)),
    ]
}

/// The server is one of the thirteen well-known root servers.
pub open spec fn is_root_server(s: ServerView) -> bool {
    exists|j: int| 0 <= j < spec_root_servers().len() && s == spec_root_servers()[j]
}

/// Every root server has its IPv4 address and listens on port 53.
pub proof fn lemma_root_servers_addressed()
    ensures
        spec_root_servers().len() == 13,
        forall|j: int|
            0 <= j < spec_root_servers().len() ==> (
            #[trigger] spec_root_servers()[j]).ipv4addr is Some && spec_root_servers()[j].port
                == 53,
{
}

/// Builds the name "<c>.root-servers.net" as exact labels.
fn root_name(c: u8) -> (r: crate::labels::LabelSeq)
    ensures
        r@ == spec_root_name(c),
{
    let mut first: Vec<u8> = Vec::new();
    first.push(c);
    let mut mid: Vec<u8> = Vec::new();
    mid.push(('r' as u8));
    mid.push(('o' as u8));
    mid.push(('o' as u8));
    mid.push(('t' as u8));
    mid.push(('-' as u8));
    mid.push(('s' as u8));
    mid.push(('e' as u8));
    mid.push(('r' as u8));
    mid.push(('v' as u8));
    mid.push(('e' as u8));
    mid.push(('r' as u8));
    mid.push(('s' as u8));
    let mut last: Vec<u8> = Vec::new();
    last.push(('n' as u8));
    last.push(('e' as u8));
    last.push(('t' as u8));
    let ghost f = first@;
    let ghost m = mid@;
    let ghost l = last@;
    proof {
        assert(f =~= spec_root_name(c)[0]);
        assert(m =~= spec_root_name(c)[1]);
        assert(l =~= spec_root_name(c)[2]);
    }
    let mut labels: Vec<Vec<u8>> = Vec::new();
    labels.push(first);
    labels.push(mid);
    labels.push(last);
    let r = crate::labels::LabelSeq { labels };
    proof {
        crate::labels::lemma_vec_u8_deep_view(r.labels@[0]);
        crate::labels::lemma_vec_u8_deep_view(r.labels@[1]);
        crate::labels::lemma_vec_u8_deep_view(r.labels@[2]);
        assert(r@ =~= spec_root_name(c));
    }
    r
}

/// One well-known root server, with both its addresses and port 53.
fn root_server(c: u8, v4: u32, v6: u128) -> (r: DNSServer)
    ensures
        r@ == spec_root_server(c, v4, v6),
{
    DNSServer { name: root_name(c), ipv4addr: Some(v4), ipv6addr: Some(v6), port: 53 }
}

/// The static, read-only root server table: exactly the thirteen
/// well-known root servers of `spec_root_servers`, in order. It is
/// built fresh for each caller and never mutated during a resolution.
pub fn root_servers() -> (r: Vec<DNSServer>)
    ensures
        r.deep_view() == spec_root_servers(),
        r.deep_view().len() == 13,
        forall|i: int|
            0 <= i < r.deep_view().len() ==> (#[trigger] r.deep_view()[i]).ipv4addr is Some
                && r.deep_view()[i].port == 53,
{
    let mut out: Vec<DNSServer> = Vec::new();
    out.push(root_server(('a' as u8), ipv4_value(198, 41, 0, 4), ipv6_value(0x2001, 0x503, 0xba3e, 0, 0, 0, 0x2, 0x30)));
    out.push(root_server(('b' as u8), ipv4_value(170, 247, 170, 2), ipv6_value(0x2801, 0x1b8, 0x10, 0, 0, 0, 0, 0xb)));
    out.push(root_server(('c' as u8), ipv4_value(192, 33, 4, 12), ipv6_value(0x2001, 0x500, 0x2, 0, 0, 0, 0, 0xc)));
    out.push(root_server(('d' as u8), ipv4_value(199, 7, 91, 13), ipv6_value(0x2001, 0x500, 0x2d, 0, 0, 0, 0, 0xd)));
    out.push(root_server(('e' as u8), ipv4_value(192, 203, 230, 10), ipv6_value(0x2001, 0x500, 0xa8, 0, 0, 0, 0, 0xe)));
    out.push(root_server(('f' as u8), ipv4_value(192, 5, 5, 241), ipv6_value(0x2001, 0x500, 0x2f, 0, 0, 0, 0, 0xf)));
    out.push(root_server(('g' as u8), ipv4_value(192, 112, 36, 4), ipv6_value(0x2001, 0x500, 0x12, 0, 0, 0, 0, 0xd0d)));
    out.push(root_server(('h' as u8), ipv4_value(198, 97, 190, 53), ipv6_value(0x2001, 0x500, 0x1, 0, 0, 0, 0, 0x53)));
    out.push(root_server(('i' as u8), ipv4_value(192, 36, 148, 17), ipv6_value(0x2001, 0x7fe, 0, 0, 0, 0, 0, 0x53)));
    out.push(root_server(('j' as u8), ipv4_value(192, 58, 128, 30), ipv6_value(0x2001, 0x503, 0xc27, 0, 0, 0, 0x2, 0x30)));
    out.push(root_server(('k' as u8), ipv4_value(193, 0, 14, 129), ipv6_value(0x2001, 0x7fd, 0, 0, 0, 0, 0, 0x1)));
    out.push(root_server(('l' as u8), ipv4_value(199, 7, 83, 42), ipv6_value(0x2001, 0x500, 0x9f, 0, 0, 0, 0, 0x42)));
    out.push(root_server(('m' as u8), ipv4_value(202, 12, 27, 33), ipv6_value(0x2001, 0xdc3, 0, 0, 0, 0, 0, 0x35)));
    proof {
        assert(out.deep_view() =~= spec_root_servers());
        lemma_root_servers_addressed();
    }
    out
}

/// Relies on rand::random: a fresh value of the thread-local generator;
/// nothing can be promised of it.
#[verifier::external_body]
pub(crate) fn random_u16() -> u16 {
    rand::random::<u16>()
}

/// Relies on rand::random_range: its documentation promises a value
/// inside the given (non-empty) range.
#[verifier::external_body]
pub(crate) fn random_below(n: usize) -> (r: usize)
    requires
        n > 0,
    ensures
        r < n,
{
    rand::random_range(0..n)
}

} // verus!
