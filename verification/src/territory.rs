//! Territory identifiers and the read-only territory registry: a mapping,
//! built once at startup and never mutated, from a fixed three-character
//! ASCII code to immutable path geometry and metadata.

use vstd::prelude::*;
use vstd::string::StrSliceExecFns;

use crate::path::{
    check_degenerate, check_segments, degenerate_points, lemma_not_degenerate, valid_segments,
    PathSegment,
};

verus! {

broadcast use vstd::string::group_string_axioms;

/// Why a string failed to become a `TerritoryId`.
#[derive(Debug, Clone, PartialEq, Eq, Structural)]
pub enum TerritoryIdError {
    InvalidLength(usize),
    DoesNotExist,
    InvalidEncoding,
}

/// A fixed three-character, case-sensitive ASCII territory code. Parsing
/// through `TerritoryId::from_str` also checks membership in the registry.
#[derive(Clone, Copy, Debug, PartialEq, Eq, Hash, Structural)]
pub struct TerritoryId {
    b0: u8,
    b1: u8,
    b2: u8,
}

/// The numeric code of a three-character sequence: its bytes read as a
/// base-256 number.
pub open spec fn spec_code_of(s: Seq<char>) -> int {
    (s[0] as int) * 65536 + (s[1] as int) * 256 + (s[2] as int)
}

impl TerritoryId {
    /// The identifier's bytes read as a base-256 number; distinct
    /// identifiers have distinct codes (`lemma_code_injective`).
    pub closed spec fn code(self) -> int {
        (self.b0 as int) * 65536 + (self.b1 as int) * 256 + (self.b2 as int)
    }

    pub proof fn lemma_code_injective(a: TerritoryId, b: TerritoryId)
        requires
            a.code() == b.code(),
        ensures
            a == b,
    {
    }

    /// The identifier's code, as a machine integer.
    pub fn code_u32(&self) -> (r: u32)
        ensures
            r == self.code(),
            r < 0x1000000,
    {
        (self.b0 as u32) * 65536 + (self.b1 as u32) * 256 + (self.b2 as u32)
    }

    /// The three bytes of the code, for display and storage.
    pub fn to_bytes(&self) -> (r: (u8, u8, u8))
        ensures
            self.code() == (r.0 as int) * 65536 + (r.1 as int) * 256 + (r.2 as int),
    {
        (self.b0, self.b1, self.b2)
    }

    /// An identifier from three raw bytes, accepted only when all three are
    /// ASCII. Registry membership is not checked here: this is the
    /// constructor the registry data itself is written with.
    pub fn from_bytes(b0: u8, b1: u8, b2: u8) -> (r: Option<TerritoryId>)
        ensures
            r is Some <==> b0 < 128 && b1 < 128 && b2 < 128,
            r matches Some(id) ==> id.code() == (b0 as int) * 65536 + (b1 as int) * 256 + (
            b2 as int),
    {
        if b0 < 128 && b1 < 128 && b2 < 128 {
            Some(TerritoryId { b0, b1, b2 })
        } else {
            None
        }
    }
}

/// Metadata attached to a territory: its path geometry as stored segment
/// instructions, a sector grouping, a stable external numeric id, a slot
/// count, and the neighbouring territories.
#[derive(Debug, Clone)]
pub struct TerritoryInfo {
    pub shape: Vec<PathSegment>,
    pub sector: u8,
    pub db_id: i32,
    pub slots: u16,
    pub neighbors: Vec<TerritoryId>,
}

/// Why a proposed entry list was rejected by `Registry::from_entries`.
#[derive(Debug, Clone, PartialEq, Eq, Structural)]
pub enum RegistryError {
    InvalidShape,
    DuplicateId,
    UnknownNeighbor,
}

/// The first entry with the given code, if any.
pub open spec fn find_entry(s: Seq<(TerritoryId, TerritoryInfo)>, code: int) -> Option<
    TerritoryInfo,
>
    decreases s.len(),
{
    if s.len() == 0 {
        None
    } else if s[0].0.code() == code {
        Some(s[0].1)
    } else {
        find_entry(s.drop_first(), code)
    }
}

/// `find_entry` succeeds exactly when some entry carries the code, and then
/// returns one of the entries with that code.
pub proof fn lemma_find_entry_exists(s: Seq<(TerritoryId, TerritoryInfo)>, code: int)
    ensures
        find_entry(s, code) is Some <==> exists|i: int|
            0 <= i < s.len() && (#[trigger] s[i]).0.code() == code,
        find_entry(s, code) matches Some(info) ==> exists|i: int|
            0 <= i < s.len() && (#[trigger] s[i]).0.code() == code && s[i].1 == info,
    decreases s.len(),
{
    if s.len() > 0 {
        if s[0].0.code() == code {
            assert(s[0].0.code() == code);
        } else {
            lemma_find_entry_exists(s.drop_first(), code);
            if find_entry(s.drop_first(), code) is Some {
                let i = choose|i: int|
                    0 <= i < s.drop_first().len() && (#[trigger] s.drop_first()[i]).0.code()
                        == code;
                assert(s[i + 1].0.code() == code);
                if find_entry(s, code) is Some {
                    let info = find_entry(s, code)->Some_0;
                    let j = choose|i: int|
                        0 <= i < s.drop_first().len() && (#[trigger] s.drop_first()[i]).0.code()
                            == code && s.drop_first()[i].1 == info;
                    assert(s[j + 1].0.code() == code && s[j + 1].1 == info);
                }
            } else {
                assert forall|i: int|
                    0 <= i < s.len() implies (#[trigger] s[i]).0.code() != code by {
                    if i > 0 {
                        assert(s.drop_first()[i - 1] == s[i]);
                    }
                }
            }
        }
    }
}

/// All shapes in the entry list are well-formed, non-degenerate paths.
pub open spec fn shapes_ok(s: Seq<(TerritoryId, TerritoryInfo)>) -> bool {
    forall|i: int|
        0 <= i < s.len() ==> valid_segments((#[trigger] s[i]).1.shape@) && !degenerate_points(
            s[i].1.shape@,
        )
}

/// No two entries share a code.
pub open spec fn codes_unique(s: Seq<(TerritoryId, TerritoryInfo)>) -> bool {
    forall|i: int, j: int|
        0 <= i < j < s.len() ==> (#[trigger] s[i]).0.code() != (#[trigger] s[j]).0.code()
}

/// Every neighbour named by an entry is itself an entry.
pub open spec fn neighbors_known(s: Seq<(TerritoryId, TerritoryInfo)>) -> bool {
    forall|i: int, k: int|
        0 <= i < s.len() && 0 <= k < s[i].1.neighbors@.len() ==> exists|j: int|
            0 <= j < s.len() && (#[trigger] s[j]).0.code() == (#[trigger] s[i].1.neighbors@[k]).code()
}

/// A valid registry entry list.
pub open spec fn entries_wf(s: Seq<(TerritoryId, TerritoryInfo)>) -> bool {
    &&& shapes_ok(s)
    &&& codes_unique(s)
    &&& neighbors_known(s)
}

/// The read-only territory registry: an immutable association from
/// identifier codes to territory metadata, populated once at startup and
/// only queried afterwards.
pub struct Registry {
    entries: Vec<(TerritoryId, TerritoryInfo)>,
}

/// Scan an entry list for a code.
fn seq_contains_code(entries: &Vec<(TerritoryId, TerritoryInfo)>, code: u32) -> (r: bool)
    ensures
        r == exists|i: int|
            0 <= i < entries@.len() && (#[trigger] entries@[i]).0.code() == code,
{
    let mut i: usize = 0;
    while i < entries.len()
        invariant
            0 <= i <= entries@.len(),
            forall|j: int| 0 <= j < i ==> (#[trigger] entries@[j]).0.code() != code,
        decreases entries@.len() - i,
    {
        if entries[i].0.code_u32() == code {
            return true;
        }
        i += 1;
    }
    false
}

impl Registry {
    pub closed spec fn entries_seq(self) -> Seq<(TerritoryId, TerritoryInfo)> {
        self.entries@
    }

    pub open spec fn wf(self) -> bool {
        entries_wf(self.entries_seq())
    }

    /// Some entry carries this code.
    pub open spec fn spec_contains(self, code: int) -> bool {
        exists|i: int|
            0 <= i < self.entries_seq().len() && (#[trigger] self.entries_seq()[i]).0.code()
                == code
    }

    /// The metadata registered under this code.
    pub open spec fn spec_find(self, code: int) -> Option<TerritoryInfo> {
        find_entry(self.entries_seq(), code)
    }

    /// An empty registry.
    pub fn empty() -> (r: Registry)
        ensures
            r.wf(),
            r.entries_seq().len() == 0,
    {
        Registry { entries: Vec::new() }
    }

    /// The number of registered territories.
    pub fn len(&self) -> (n: usize)
        ensures
            n == self.entries_seq().len(),
    {
        self.entries.len()
    }

    /// The identifier of the entry at position `i`.
    pub fn id_at(&self, i: usize) -> (id: TerritoryId)
        requires
            i < self.entries_seq().len(),
        ensures
            id == self.entries_seq()[i as int].0,
            self.spec_contains(id.code()),
    {
        self.entries[i].0
    }

    /// Whether `id` is registered.
    pub fn contains(&self, id: &TerritoryId) -> (r: bool)
        ensures
            r == self.spec_contains(id.code()),
    {
        self.lookup(id).is_some()
    }

    /// Look the metadata of `id` up; `None` exactly when `id` is not
    /// registered.
    pub fn lookup(&self, id: &TerritoryId) -> (r: Option<&TerritoryInfo>)
        ensures
            r is Some <==> self.spec_contains(id.code()),
            r matches Some(info) ==> self.spec_find(id.code()) == Some(*info),
    {
        let code: u32 = id.code_u32();
        let mut i: usize = 0;
        while i < self.entries.len()
            invariant
                0 <= i <= self.entries@.len(),
                code == id.code(),
                forall|j: int| 0 <= j < i ==> (#[trigger] self.entries@[j]).0.code() != code,
            decreases self.entries@.len() - i,
        {
            if self.entries[i].0.code_u32() == code {
                proof {
                    lemma_find_entry_at(self.entries@, code as int, i as int);
                }
                return Some(&self.entries[i].1);
            }
            i += 1;
        }
        proof {
            lemma_find_entry_exists(self.entries@, code as int);
        }
        None
    }

    /// Build a registry from an entry list, validating that every shape is a
    /// well-formed non-degenerate path, that no code repeats, and that every
    /// neighbour is itself registered. The list becomes the registry
    /// unchanged; it is never modified afterwards.
    pub fn from_entries(entries: Vec<(TerritoryId, TerritoryInfo)>) -> (r: Result<
        Registry,
        RegistryError,
    >)
        ensures
            r is Ok <==> entries_wf(entries@),
            r matches Ok(reg) ==> reg.entries_seq() == entries@ && reg.wf(),
            r == Err::<Registry, RegistryError>(RegistryError::InvalidShape) <==> !shapes_ok(
                entries@,
            ),
            r == Err::<Registry, RegistryError>(RegistryError::DuplicateId) <==> shapes_ok(
                entries@,
            ) && !codes_unique(entries@),
            r == Err::<Registry, RegistryError>(RegistryError::UnknownNeighbor) <==> shapes_ok(
                entries@,
            ) && codes_unique(entries@) && !neighbors_known(entries@),
    {
        let n = entries.len();
        let mut i: usize = 0;
        while i < n
            invariant
                0 <= i <= n,
                n == entries@.len(),
                forall|j: int|
                    0 <= j < i ==> valid_segments((#[trigger] entries@[j]).1.shape@)
                        && !degenerate_points(entries@[j].1.shape@),
            decreases n - i,
        {
            if !check_segments(&entries[i].1.shape) || check_degenerate(&entries[i].1.shape) {
                return Err(RegistryError::InvalidShape);
            }
            i += 1;
        }
        let mut i: usize = 0;
        while i < n
            invariant
                0 <= i <= n,
                n == entries@.len(),
                shapes_ok(entries@),
                forall|a: int, b: int|
                    0 <= a < b < entries@.len() && a < i ==> (#[trigger] entries@[a]).0.code() != (
                    #[trigger] entries@[b]).0.code(),
            decreases n - i,
        {
            let code_i: u32 = entries[i].0.code_u32();
            let mut j: usize = i + 1;
            while j < n
                invariant
                    0 <= i < j <= n,
                    n == entries@.len(),
                    shapes_ok(entries@),
                    code_i == entries@[i as int].0.code(),
                    forall|b: int| i < b < j ==> (#[trigger] entries@[b]).0.code() != code_i,
                decreases n - j,
            {
                if entries[j].0.code_u32() == code_i {
                    return Err(RegistryError::DuplicateId);
                }
                j += 1;
            }
            i += 1;
        }
        let mut i: usize = 0;
        while i < n
            invariant
                0 <= i <= n,
                n == entries@.len(),
                shapes_ok(entries@),
                codes_unique(entries@),
                forall|a: int, k: int|
                    0 <= a < i && 0 <= k < entries@[a].1.neighbors@.len() ==> exists|j: int|
                        0 <= j < entries@.len() && (#[trigger] entries@[j]).0.code() == (
                        #[trigger] entries@[a].1.neighbors@[k]).code(),
            decreases n - i,
        {
            let m = entries[i].1.neighbors.len();
            let mut k: usize = 0;
            while k < m
                invariant
                    0 <= k <= m,
                    0 <= i < n,
                    n == entries@.len(),
                    shapes_ok(entries@),
                    codes_unique(entries@),
                    m == entries@[i as int].1.neighbors@.len(),
                    forall|kk: int|
                        0 <= kk < k ==> exists|j: int|
                            0 <= j < entries@.len() && (#[trigger] entries@[j]).0.code() == (
                            #[trigger] entries@[i as int].1.neighbors@[kk]).code(),
                decreases m - k,
            {
                let ncode: u32 = entries[i].1.neighbors[k].code_u32();
                if !seq_contains_code(&entries, ncode) {
                    return Err(RegistryError::UnknownNeighbor);
                }
                k += 1;
            }
            i += 1;
        }
        Ok(Registry { entries })
    }
}

/// A territory identifier written directly into the compiled-in dataset.
fn builtin_id(a: char, b: char, c: char) -> (r: TerritoryId)
    ensures
        r.code() == (a as u8) * 65536 + (b as u8) * 256 + (c as u8),
{
    TerritoryId { b0: a as u8, b1: b as u8, b2: c as u8 }
}

impl Registry {
    /// The compiled-in territory dataset: the registry the distributed
    /// artifact ships with, built once at startup and only queried
    /// afterwards. The dataset is proved valid, so construction cannot
    /// fail.
    pub fn builtin() -> (r: Registry)
        ensures
            r.wf(),
            r.entries_seq().len() == 8,
    {
        let xod = builtin_id('X', 'O', 'D');
        let gve = builtin_id('G', 'V', 'E');
        let lsd = builtin_id('L', 'S', 'D');
        let nub = builtin_id('N', 'U', 'B');
        let qor = builtin_id('Q', 'O', 'R');
        let wlt = builtin_id('W', 'L', 'T');
        let fud = builtin_id('F', 'U', 'D');
        let dke = builtin_id('D', 'K', 'E');
        let mut entries: Vec<(TerritoryId, TerritoryInfo)> = Vec::new();
        entries.push(
            (
                xod,
                TerritoryInfo {
                    shape: vec![
                        PathSegment::MoveTo { x: 2120, y: 1490 },
                        PathSegment::LineTo { x: 2300, y: 1490 },
                        PathSegment::LineTo { x: 2300, y: 1660 },
                        PathSegment::LineTo { x: 2120, y: 1660 },
                        PathSegment::ClosePath,
                    ],
                    sector: 7,
                    db_id: 101,
                    slots: 10,
                    neighbors: vec![gve, lsd],
                },
            ),
        );
        entries.push(
            (
                gve,
                TerritoryInfo {
                    shape: vec![
                        PathSegment::MoveTo { x: 2310, y: 1500 },
                        PathSegment::LineTo { x: 2450, y: 1520 },
                        PathSegment::LineTo { x: 2430, y: 1685 },
                        PathSegment::LineTo { x: 2325, y: 1640 },
                        PathSegment::ClosePath,
                    ],
                    sector: 7,
                    db_id: 102,
                    slots: 8,
                    neighbors: vec![xod],
                },
            ),
        );
        entries.push(
            (
                lsd,
                TerritoryInfo {
                    shape: vec![
                        PathSegment::MoveTo { x: 1980, y: 1420 },
                        PathSegment::LineTo { x: 2110, y: 1445 },
                        PathSegment::LineTo { x: 2040, y: 1585 },
                        PathSegment::ClosePath,
                    ],
                    sector: 7,
                    db_id: 103,
                    slots: 6,
                    neighbors: vec![xod, nub],
                },
            ),
        );
        entries.push(
            (
                nub,
                TerritoryInfo {
                    shape: vec![
                        PathSegment::MoveTo { x: 1800, y: 1300 },
                        PathSegment::LineTo { x: 1950, y: 1310 },
                        PathSegment::Quadratic { x1: 1990, y1: 1380, x: 1930, y: 1430 },
                        PathSegment::LineTo { x: 1810, y: 1415 },
                        PathSegment::ClosePath,
                    ],
                    sector: 6,
                    db_id: 104,
                    slots: 12,
                    neighbors: vec![lsd],
                },
            ),
        );
        entries.push(
            (
                qor,
                TerritoryInfo {
                    shape: vec![
                        PathSegment::MoveTo { x: 4000, y: 2000 },
                        PathSegment::LineTo { x: 4150, y: 2030 },
                        PathSegment::LineTo { x: 4185, y: 2160 },
                        PathSegment::LineTo { x: 4060, y: 2230 },
                        PathSegment::LineTo { x: 3970, y: 2120 },
                        PathSegment::ClosePath,
                    ],
                    sector: 11,
                    db_id: 105,
                    slots: 14,
                    neighbors: vec![wlt],
                },
            ),
        );
        entries.push(
            (
                wlt,
                TerritoryInfo {
                    shape: vec![
                        PathSegment::MoveTo { x: 4200, y: 2100 },
                        PathSegment::CurveTo {
                            x1: 4290,
                            y1: 2080,
                            x2: 4340,
                            y2: 2140,
                            x: 4310,
                            y: 2230,
                        },
                        PathSegment::LineTo { x: 4205, y: 2215 },
                        PathSegment::ClosePath,
                    ],
                    sector: 11,
                    db_id: 106,
                    slots: 9,
                    neighbors: vec![qor, fud],
                },
            ),
        );
        entries.push(
            (
                fud,
                TerritoryInfo {
                    shape: vec![
                        PathSegment::MoveTo { x: 520, y: 380 },
                        PathSegment::LineTo { x: 640, y: 395 },
                        PathSegment::LineTo { x: 610, y: 520 },
                        PathSegment::LineTo { x: 505, y: 505 },
                        PathSegment::ClosePath,
                    ],
                    sector: 2,
                    db_id: 107,
                    slots: 7,
                    neighbors: vec![wlt, dke],
                },
            ),
        );
        entries.push(
            (
                dke,
                TerritoryInfo {
                    shape: vec![
                        PathSegment::MoveTo { x: 660, y: 420 },
                        PathSegment::LineTo { x: 770, y: 430 },
                        PathSegment::LineTo { x: 745, y: 560 },
                        PathSegment::LineTo { x: 655, y: 540 },
                        PathSegment::ClosePath,
                    ],
                    sector: 2,
                    db_id: 108,
                    slots: 5,
                    neighbors: vec![fud],
                },
            ),
        );
        let ghost es = entries@;
        proof {
            assert(es.len() == 8);
            assert forall|i: int|
                0 <= i < es.len() implies valid_segments((#[trigger] es[i]).1.shape@)
                && !degenerate_points(es[i].1.shape@) by {
                let shape = es[i].1.shape@;
                assert(valid_segments(shape));
                lemma_not_degenerate(shape);
            }
            assert(codes_unique(es));
            assert forall|i: int, k: int|
                0 <= i < es.len() && 0 <= k < es[i].1.neighbors@.len() implies exists|j: int|
                    0 <= j < es.len() && (#[trigger] es[j]).0.code() == (
                #[trigger] es[i].1.neighbors@[k]).code() by {
                if i == 0 {
                    if k == 0 {
                        assert(es[1].0.code() == es[0].1.neighbors@[0].code());
                    } else {
                        assert(es[2].0.code() == es[0].1.neighbors@[1].code());
                    }
                } else if i == 1 {
                    assert(es[0].0.code() == es[1].1.neighbors@[0].code());
                } else if i == 2 {
                    if k == 0 {
                        assert(es[0].0.code() == es[2].1.neighbors@[0].code());
                    } else {
                        assert(es[3].0.code() == es[2].1.neighbors@[1].code());
                    }
                } else if i == 3 {
                    assert(es[2].0.code() == es[3].1.neighbors@[0].code());
                } else if i == 4 {
                    assert(es[5].0.code() == es[4].1.neighbors@[0].code());
                } else if i == 5 {
                    if k == 0 {
                        assert(es[4].0.code() == es[5].1.neighbors@[0].code());
                    } else {
                        assert(es[6].0.code() == es[5].1.neighbors@[1].code());
                    }
                } else if i == 6 {
                    if k == 0 {
                        assert(es[5].0.code() == es[6].1.neighbors@[0].code());
                    } else {
                        assert(es[7].0.code() == es[6].1.neighbors@[1].code());
                    }
                } else {
                    assert(es[6].0.code() == es[7].1.neighbors@[0].code());
                }
            }
            assert(entries_wf(es));
        }
        match Registry::from_entries(entries) {
            Ok(r) => r,
            Err(_) => vstd::pervasive::unreached(),
        }
    }
}

/// `find_entry` returns the entry at `i` when no earlier entry matches.
proof fn lemma_find_entry_at(s: Seq<(TerritoryId, TerritoryInfo)>, code: int, i: int)
    requires
        0 <= i < s.len(),
        s[i].0.code() == code,
        forall|j: int| 0 <= j < i ==> (#[trigger] s[j]).0.code() != code,
    ensures
        find_entry(s, code) == Some(s[i].1),
    decreases i,
{
    if i > 0 {
        lemma_find_entry_at(s.drop_first(), code, i - 1);
        assert(s.drop_first()[i - 1] == s[i]);
    }
}

impl TerritoryId {
    /// Parse a territory identifier: the string must be ASCII, exactly three
    /// characters long, and registered. The checks happen in that order, so
    /// the reported error does not depend on the registry except in the
    /// `DoesNotExist` case.
    pub fn from_str(s: &str, registry: &Registry) -> (r: Result<TerritoryId, TerritoryIdError>)
        ensures
            !s.is_ascii() ==> r == Err::<TerritoryId, TerritoryIdError>(
                TerritoryIdError::InvalidEncoding,
            ),
            s.is_ascii() && s@.len() != 3 ==> r == Err::<TerritoryId, TerritoryIdError>(
                TerritoryIdError::InvalidLength(s@.len() as usize),
            ),
            s.is_ascii() && s@.len() == 3 && !registry.spec_contains(spec_code_of(s@)) ==> r
                == Err::<TerritoryId, TerritoryIdError>(TerritoryIdError::DoesNotExist),
            r is Ok <==> s.is_ascii() && s@.len() == 3 && registry.spec_contains(
                spec_code_of(s@),
            ),
            r matches Ok(id) ==> id.code() == spec_code_of(s@) && registry.spec_contains(
                id.code(),
            ),
    {
        if !s.is_ascii() {
            return Err(TerritoryIdError::InvalidEncoding);
        }
        let n = s.unicode_len();
        if n != 3 {
            return Err(TerritoryIdError::InvalidLength(n));
        }
        let b0 = s.get_ascii(0);
        let b1 = s.get_ascii(1);
        let b2 = s.get_ascii(2);
        let id = TerritoryId { b0, b1, b2 };
        proof {
            assert(s@[0] <= '\u{7f}' && s@[1] <= '\u{7f}' && s@[2] <= '\u{7f}');
            assert(id.code() == spec_code_of(s@));
        }
        if registry.contains(&id) {
            Ok(id)
        } else {
            Err(TerritoryIdError::DoesNotExist)
        }
    }

    /// The metadata of a registered identifier. Registry lookup is total
    /// over identifiers that parsing has validated.
    pub fn info<'a>(&self, registry: &'a Registry) -> (r: &'a TerritoryInfo)
        requires
            registry.spec_contains(self.code()),
        ensures
            registry.spec_find(self.code()) == Some(*r),
    {
        match registry.lookup(self) {
            Some(info) => info,
            None => vstd::pervasive::unreached(),
        }
    }
}

/// Every registered code has well-formed, non-empty path geometry: looking
/// a registered identifier up always yields a shape from which a path can be
/// rebuilt.
pub proof fn lemma_lookup_total(registry: Registry, code: int)
    requires
        registry.wf(),
        registry.spec_contains(code),
    ensures
        registry.spec_find(code) is Some,
        registry.spec_find(code) matches Some(info) ==> valid_segments(info.shape@)
            && info.shape@.len() > 0 && !degenerate_points(info.shape@),
{
    lemma_find_entry_exists(registry.entries_seq(), code);
    if registry.spec_find(code) is Some {
        let info = registry.spec_find(code)->Some_0;
        let i = choose|i: int|
            0 <= i < registry.entries_seq().len() && (#[trigger] registry.entries_seq()[i]).0.code()
                == code && registry.entries_seq()[i].1 == info;
        assert(valid_segments(registry.entries_seq()[i].1.shape@));
    }
}

} // verus!
