//! The header table of RFC 7541 section 2.3: the static table of Appendix
//! A at indices 1 to 61, and the dynamic table after it, newest first,
//! each entry counted at its name, its value and 32 octets, the oldest
//! evicted to make room (section 4).

use vstd::prelude::*;
use vstd::utf8::*;

use crate::http2::error::{ErrorCode, Violation};
use crate::ascii::{numbered, with_number};
use crate::text::{str_equal, utf8};
use std::collections::VecDeque;

verus! {

/// How many fields the static table holds.
pub const STATIC_LEN: usize = 61;

/// What an entry costs beside its name and value (section 4.1).
pub const OVERHEAD: usize = 32;

/// The field at `index` of the static table of Appendix A, 1 to 61.
pub open spec fn static_field(index: usize) -> (Seq<char>, Seq<char>) {
    match index {
        1 => (":authority"@, ""@),
        2 => (":method"@, "GET"@),
        3 => (":method"@, "POST"@),
        4 => (":path"@, "/"@),
        5 => (":path"@, "/index.html"@),
        6 => (":scheme"@, "http"@),
        7 => (":scheme"@, "https"@),
        8 => (":status"@, "200"@),
        9 => (":status"@, "204"@),
        10 => (":status"@, "206"@),
        11 => (":status"@, "304"@),
        12 => (":status"@, "400"@),
        13 => (":status"@, "404"@),
        14 => (":status"@, "500"@),
        15 => ("accept-charset"@, ""@),
        16 => ("accept-encoding"@, "gzip, deflate"@),
        17 => ("accept-language"@, ""@),
        18 => ("accept-ranges"@, ""@),
        19 => ("accept"@, ""@),
        20 => ("access-control-allow-origin"@, ""@),
        21 => ("age"@, ""@),
        22 => ("allow"@, ""@),
        23 => ("authorization"@, ""@),
        24 => ("cache-control"@, ""@),
        25 => ("content-disposition"@, ""@),
        26 => ("content-encoding"@, ""@),
        27 => ("content-language"@, ""@),
        28 => ("content-length"@, ""@),
        29 => ("content-location"@, ""@),
        30 => ("content-range"@, ""@),
        31 => ("content-type"@, ""@),
        32 => ("cookie"@, ""@),
        33 => ("date"@, ""@),
        34 => ("etag"@, ""@),
        35 => ("expect"@, ""@),
        36 => ("expires"@, ""@),
        37 => ("from"@, ""@),
        38 => ("host"@, ""@),
        39 => ("if-match"@, ""@),
        40 => ("if-modified-since"@, ""@),
        41 => ("if-none-match"@, ""@),
        42 => ("if-range"@, ""@),
        43 => ("if-unmodified-since"@, ""@),
        44 => ("last-modified"@, ""@),
        45 => ("link"@, ""@),
        46 => ("location"@, ""@),
        47 => ("max-forwards"@, ""@),
        48 => ("proxy-authenticate"@, ""@),
        49 => ("proxy-authorization"@, ""@),
        50 => ("range"@, ""@),
        51 => ("referer"@, ""@),
        52 => ("refresh"@, ""@),
        53 => ("retry-after"@, ""@),
        54 => ("server"@, ""@),
        55 => ("set-cookie"@, ""@),
        56 => ("strict-transport-security"@, ""@),
        57 => ("transfer-encoding"@, ""@),
        58 => ("user-agent"@, ""@),
        59 => ("vary"@, ""@),
        60 => ("via"@, ""@),
        _ => ("www-authenticate"@, ""@),
    }
}

/// The field at `index` of the static table, 1 to 61.
pub fn static_entry(index: usize) -> (r: (&'static str, &'static str))
    requires
        1 <= index <= STATIC_LEN,
    ensures
        (r.0@, r.1@) == static_field(index),
{
    match index {
        1 => (":authority", ""),
        2 => (":method", "GET"),
        3 => (":method", "POST"),
        4 => (":path", "/"),
        5 => (":path", "/index.html"),
        6 => (":scheme", "http"),
        7 => (":scheme", "https"),
        8 => (":status", "200"),
        9 => (":status", "204"),
        10 => (":status", "206"),
        11 => (":status", "304"),
        12 => (":status", "400"),
        13 => (":status", "404"),
        14 => (":status", "500"),
        15 => ("accept-charset", ""),
        16 => ("accept-encoding", "gzip, deflate"),
        17 => ("accept-language", ""),
        18 => ("accept-ranges", ""),
        19 => ("accept", ""),
        20 => ("access-control-allow-origin", ""),
        21 => ("age", ""),
        22 => ("allow", ""),
        23 => ("authorization", ""),
        24 => ("cache-control", ""),
        25 => ("content-disposition", ""),
        26 => ("content-encoding", ""),
        27 => ("content-language", ""),
        28 => ("content-length", ""),
        29 => ("content-location", ""),
        30 => ("content-range", ""),
        31 => ("content-type", ""),
        32 => ("cookie", ""),
        33 => ("date", ""),
        34 => ("etag", ""),
        35 => ("expect", ""),
        36 => ("expires", ""),
        37 => ("from", ""),
        38 => ("host", ""),
        39 => ("if-match", ""),
        40 => ("if-modified-since", ""),
        41 => ("if-none-match", ""),
        42 => ("if-range", ""),
        43 => ("if-unmodified-since", ""),
        44 => ("last-modified", ""),
        45 => ("link", ""),
        46 => ("location", ""),
        47 => ("max-forwards", ""),
        48 => ("proxy-authenticate", ""),
        49 => ("proxy-authorization", ""),
        50 => ("range", ""),
        51 => ("referer", ""),
        52 => ("refresh", ""),
        53 => ("retry-after", ""),
        54 => ("server", ""),
        55 => ("set-cookie", ""),
        56 => ("strict-transport-security", ""),
        57 => ("transfer-encoding", ""),
        58 => ("user-agent", ""),
        59 => ("vary", ""),
        60 => ("via", ""),
        _ => ("www-authenticate", ""),
    }
}

/// What a field costs against the table's size: its name, its value and
/// 32 octets (section 4.1).
pub open spec fn cost(field: (Seq<char>, Seq<char>)) -> nat {
    encode_utf8(field.0).len() + encode_utf8(field.1).len() + 32
}

/// What `fields` cost together.
pub open spec fn total(fields: Seq<(Seq<char>, Seq<char>)>) -> nat
    decreases fields.len(),
{
    if fields.len() == 0 {
        0
    } else {
        total(fields.drop_last()) + cost(fields.last())
    }
}

/// `fields`, newest first, with the oldest dropped until they cost at most
/// `room`.
pub open spec fn evicted(fields: Seq<(Seq<char>, Seq<char>)>, room: nat) -> Seq<
    (Seq<char>, Seq<char>),
>
    decreases fields.len(),
{
    if fields.len() == 0 || total(fields) <= room {
        fields
    } else {
        evicted(fields.drop_last(), room)
    }
}

/// The dynamic fields after `field` is added to a table of `max_size`
/// holding `fields`: the oldest evicted to make room, and the field added
/// at the front where it fits at all (section 4.4).
pub open spec fn inserted(
    fields: Seq<(Seq<char>, Seq<char>)>,
    max_size: nat,
    field: (Seq<char>, Seq<char>),
) -> Seq<(Seq<char>, Seq<char>)> {
    if cost(field) <= max_size {
        seq![field] + evicted(fields, (max_size - cost(field)) as nat)
    } else {
        evicted(fields, 0)
    }
}

/// The field at `index`: the static table from 1 to 61, the dynamic table
/// after it.
pub open spec fn field_at(fields: Seq<(Seq<char>, Seq<char>)>, index: usize) -> Option<
    (Seq<char>, Seq<char>),
> {
    if 1 <= index <= STATIC_LEN {
        Some(static_field(index))
    } else if STATIC_LEN < index < STATIC_LEN + 1 + fields.len() {
        Some(fields[index - STATIC_LEN - 1])
    } else {
        None
    }
}

/// Where a field was found: the index of the whole field, or only of its
/// name.
#[derive(Clone, Copy, Debug, PartialEq, Eq, Structural)]
pub enum Found {
    Field(usize),
    Name(usize),
}

/// The first index from `at` of the static table that holds `name` and,
/// where `whole`, `value`.
pub open spec fn static_from(name: Seq<char>, value: Seq<char>, whole: bool, at: nat) -> Option<
    usize,
>
    decreases 62 - at,
{
    if at < 1 || at > STATIC_LEN {
        None
    } else if static_field(at as usize).0 == name && (!whole || static_field(at as usize).1
        == value) {
        Some(at as usize)
    } else {
        static_from(name, value, whole, at + 1)
    }
}

/// The first position from `at` of `fields` that holds `name` and, where
/// `whole`, `value`.
pub open spec fn dynamic_from(
    fields: Seq<(Seq<char>, Seq<char>)>,
    name: Seq<char>,
    value: Seq<char>,
    whole: bool,
    at: nat,
) -> Option<nat>
    decreases fields.len() - at,
{
    if at >= fields.len() {
        None
    } else if fields[at as int].0 == name && (!whole || fields[at as int].1 == value) {
        Some(at)
    } else {
        dynamic_from(fields, name, value, whole, at + 1)
    }
}

/// Where `name` and `value` are: the whole field wherever it is, else the
/// name, the static table before the dynamic one.
pub open spec fn found(fields: Seq<(Seq<char>, Seq<char>)>, name: Seq<char>, value: Seq<char>) -> Option<
    Found,
> {
    if let Some(index) = static_from(name, value, true, 1) {
        Some(Found::Field(index))
    } else if let Some(at) = dynamic_from(fields, name, value, true, 0) {
        Some(Found::Field((at + STATIC_LEN + 1) as usize))
    } else if let Some(index) = static_from(name, value, false, 1) {
        Some(Found::Name(index))
    } else if let Some(at) = dynamic_from(fields, name, value, false, 0) {
        Some(Found::Name((at + STATIC_LEN + 1) as usize))
    } else {
        None
    }
}

/// The static table and one side's dynamic table.
#[derive(Clone, Debug)]
pub struct Table {
    entries: VecDeque<(String, String)>,
    size: usize,
    max_size: usize,
}

impl View for Table {
    /// The dynamic fields, newest first, and the size they may hold.
    type V = (Seq<(Seq<char>, Seq<char>)>, nat);

    closed spec fn view(&self) -> Self::V {
        (self.entries@.map_values(|e: (String, String)| (e.0@, e.1@)), self.max_size as nat)
    }
}

pub proof fn lemma_total_counts(fields: Seq<(Seq<char>, Seq<char>)>)
    ensures
        total(fields) >= 32 * fields.len(),
    decreases fields.len(),
{
    if fields.len() > 0 {
        lemma_total_counts(fields.drop_last());
    }
}

pub proof fn lemma_evicted(fields: Seq<(Seq<char>, Seq<char>)>, room: nat)
    ensures
        total(evicted(fields, room)) <= room || evicted(fields, room).len() == 0,
        evicted(fields, room).len() <= fields.len(),
        evicted(fields, room) == fields.take(evicted(fields, room).len() as int),
    decreases fields.len(),
{
    if fields.len() == 0 || total(fields) <= room {
        assert(fields.take(fields.len() as int) =~= fields);
    } else {
        lemma_evicted(fields.drop_last(), room);
        let kept = evicted(fields.drop_last(), room);
        assert(fields.drop_last().take(kept.len() as int) =~= fields.take(kept.len() as int));
    }
}

impl Table {
    /// Whether the size kept is what the fields cost, and within the most
    /// the table may hold.
    pub closed spec fn wf(&self) -> bool {
        &&& self.size as nat == total(self@.0)
        &&& self.size <= self.max_size
    }

    /// An empty dynamic table of at most `max_size` octets.
    pub fn new(max_size: usize) -> (table: Self)
        ensures
            table.wf(),
            table@.0 == Seq::<(Seq<char>, Seq<char>)>::empty(),
            table@.1 == max_size,
    {
        let table = Table { entries: VecDeque::new(), size: 0, max_size };
        assert(table@.0 =~= Seq::<(Seq<char>, Seq<char>)>::empty());
        table
    }

    /// The octets the dynamic table holds.
    pub fn size(&self) -> (r: usize)
        requires
            self.wf(),
        ensures
            r == total(self@.0),
            r <= self@.1,
    {
        self.size
    }

    /// The octets it may hold.
    pub fn max_size(&self) -> (r: usize)
        ensures
            r == self@.1,
    {
        self.max_size
    }

    /// The dynamic entries, newest first.
    pub fn dynamic(&self) -> (r: &VecDeque<(String, String)>)
        ensures
            r@.map_values(|e: (String, String)| (e.0@, e.1@)) == self@.0,
    {
        &self.entries
    }

    /// The field at `index`, static or dynamic.
    ///
    /// # Errors
    ///
    /// A `COMPRESSION_ERROR` for 0 or an index past the table's end.
    pub fn get(&self, index: usize) -> (r: Result<(&str, &str), Violation>)
        ensures
            match r {
                Ok((name, value)) => field_at(self@.0, index) == Some((name@, value@)),
                Err(violation) => field_at(self@.0, index) is None && violation.code
                    == ErrorCode::Compression && utf8(violation.message@) == numbered(
                    "no header at index "@,
                    index as nat,
                    ""@,
                ),
            },
    {
        if 1 <= index && index <= STATIC_LEN {
            return Ok(static_entry(index));
        }
        if index > STATIC_LEN && index - (STATIC_LEN + 1) < self.entries.len() {
            let entry = &self.entries[index - (STATIC_LEN + 1)];
            return Ok((entry.0.as_str(), entry.1.as_str()));
        }
        Err(Violation::compression(with_number("no header at index ", index as u64, "").as_str()))
    }

    /// Where `name` and `value` are: the whole field wherever it is, else
    /// the name, the static table before the dynamic one.
    pub fn find(&self, name: &str, value: &str) -> (r: Option<Found>)
        requires
            self.wf(),
        ensures
            r == found(self@.0, name@, value@),
    {
        proof {
            lemma_total_counts(self@.0);
        }
        if let Some(index) = Self::find_static(name, value, true) {
            return Some(Found::Field(index));
        }
        if let Some(at) = self.find_dynamic(name, value, true) {
            return Some(Found::Field(at + STATIC_LEN + 1));
        }
        if let Some(index) = Self::find_static(name, value, false) {
            return Some(Found::Name(index));
        }
        if let Some(at) = self.find_dynamic(name, value, false) {
            return Some(Found::Name(at + STATIC_LEN + 1));
        }
        None
    }

    fn find_static(name: &str, value: &str, whole: bool) -> (r: Option<usize>)
        ensures
            r == static_from(name@, value@, whole, 1),
    {
        let mut at: usize = 1;
        while at <= STATIC_LEN
            invariant
                1 <= at <= STATIC_LEN + 1,
                static_from(name@, value@, whole, 1) == static_from(name@, value@, whole, at as nat),
            decreases STATIC_LEN + 1 - at,
        {
            let (n, v) = static_entry(at);
            if str_equal(n, name) && (!whole || str_equal(v, value)) {
                return Some(at);
            }
            at = at + 1;
        }
        None
    }

    fn find_dynamic(&self, name: &str, value: &str, whole: bool) -> (r: Option<usize>)
        requires
            self@.0.len() * 32 <= usize::MAX,
        ensures
            r matches Some(at) ==> at + STATIC_LEN + 1 <= usize::MAX,
            match r {
                Some(at) => dynamic_from(self@.0, name@, value@, whole, 0) == Some(at as nat),
                None => dynamic_from(self@.0, name@, value@, whole, 0) is None,
            },
    {
        let mut at: usize = 0;
        while at < self.entries.len()
            invariant
                at <= self.entries@.len() == self@.0.len(),
                self@.0.len() * 32 <= usize::MAX,
                dynamic_from(self@.0, name@, value@, whole, 0) == dynamic_from(
                    self@.0,
                    name@,
                    value@,
                    whole,
                    at as nat,
                ),
            decreases self.entries.len() - at,
        {
            let entry = &self.entries[at];
            assert(self@.0[at as int] == (entry.0@, entry.1@));
            if str_equal(entry.0.as_str(), name) && (!whole || str_equal(entry.1.as_str(), value)) {
                return Some(at);
            }
            at = at + 1;
        }
        None
    }

    /// Add a field at the front, evicting the oldest until it fits; one
    /// larger than the whole table empties it and is not added (section
    /// 4.4).
    pub fn insert(&mut self, name: String, value: String)
        requires
            old(self).wf(),
        ensures
            final(self).wf(),
            final(self)@.1 == old(self)@.1,
            final(self)@.0 == inserted(old(self)@.0, old(self)@.1, (name@, value@)),
    {
        let name_len = name.as_str().as_bytes().len();
        let value_len = value.as_str().as_bytes().len();
        let price = if name_len <= usize::MAX - OVERHEAD && value_len <= usize::MAX - OVERHEAD
            - name_len {
            Some(name_len + value_len + OVERHEAD)
        } else {
            None
        };
        assert(price matches Some(c) ==> c == cost((name@, value@)));
        match price {
            Some(price) if price <= self.max_size => {
                self.evict(self.max_size - price);
                let ghost before = self@.0;
                self.entries.push_front((name, value));
                self.size = self.size + price;
                proof {
                    lemma_evicted(before, 0);
                    assert(self@.0 =~= seq![(name@, value@)] + before);
                    lemma_total_front((name@, value@), before);
                }
            },
            _ => {
                self.evict(0);
            },
        }
    }

    /// Change the size it may hold, evicting what no longer fits (section
    /// 4.3).
    pub fn resize(&mut self, max_size: usize)
        requires
            old(self).wf(),
        ensures
            final(self).wf(),
            final(self)@.1 == max_size,
            final(self)@.0 == evicted(old(self)@.0, max_size as nat),
    {
        self.max_size = max_size;
        self.evict(max_size);
    }

    fn evict(&mut self, room: usize)
        requires
            old(self).size as nat == total(old(self)@.0),
            room <= old(self).max_size,
        ensures
            final(self).wf(),
            final(self).max_size == old(self).max_size,
            final(self)@.0 == evicted(old(self)@.0, room as nat),
            final(self).size <= room,
    {
        while self.size > room
            invariant
                self.size as nat == total(self@.0),
                room <= self.max_size == old(self).max_size,
                evicted(self@.0, room as nat) == evicted(old(self)@.0, room as nat),
            decreases self.entries.len(),
        {
            let ghost before = self@.0;
            assert(before.len() > 0);
            let last = self.entries.pop_back();
            match last {
                Some(entry) => {
                    assert(self@.0 =~= before.drop_last());
                    let cost = entry.0.as_str().as_bytes().len() + entry.1.as_str().as_bytes().len() + OVERHEAD;
                    self.size = self.size - cost;
                },
                None => {},
            }
        }
    }
}

/// What a field at the front costs beside the rest.
pub proof fn lemma_total_front(
    field: (Seq<char>, Seq<char>),
    fields: Seq<(Seq<char>, Seq<char>)>,
)
    ensures
        total(seq![field] + fields) == cost(field) + total(fields),
    decreases fields.len(),
{
    let whole = seq![field] + fields;
    if fields.len() == 0 {
        assert(whole.drop_last() =~= Seq::<(Seq<char>, Seq<char>)>::empty());
        assert(whole.last() == field);
        assert(total(whole.drop_last()) == 0);
        assert(total(whole) == total(whole.drop_last()) + cost(whole.last()));
    } else {
        lemma_total_front(field, fields.drop_last());
        assert(whole.last() == fields.last());
        assert(whole.drop_last() =~= seq![field] + fields.drop_last());
        assert(total(whole) == total(whole.drop_last()) + cost(whole.last()));
    }
}

/// Whether the static entry at `index` holds `name` and, where `whole`,
/// `value`.
pub open spec fn static_holds(index: nat, name: Seq<char>, value: Seq<char>, whole: bool) -> bool {
    static_field(index as usize).0 == name && (!whole || static_field(index as usize).1 == value)
}

/// Whether the dynamic entry at `at` holds `name` and, where `whole`,
/// `value`.
pub open spec fn dynamic_holds(
    fields: Seq<(Seq<char>, Seq<char>)>,
    at: int,
    name: Seq<char>,
    value: Seq<char>,
    whole: bool,
) -> bool {
    fields[at].0 == name && (!whole || fields[at].1 == value)
}

/// The static search finds the first entry from `at` that holds what is
/// looked for, and none where no entry does.
proof fn lemma_static_first(name: Seq<char>, value: Seq<char>, whole: bool, at: nat)
    requires
        1 <= at,
    ensures
        match static_from(name, value, whole, at) {
            Some(index) => at <= index <= STATIC_LEN && static_holds(index as nat, name, value, whole)
                && forall|j: nat| at <= j < index ==> !#[trigger] static_holds(j, name, value, whole),
            None => forall|j: nat| at <= j <= STATIC_LEN ==> !#[trigger] static_holds(j, name, value, whole),
        },
    decreases 62 - at,
{
    if at <= STATIC_LEN {
        lemma_static_first(name, value, whole, at + 1);
    }
}

/// The dynamic search finds the first entry from `at` that holds what is
/// looked for, and none where no entry does.
proof fn lemma_dynamic_first(
    fields: Seq<(Seq<char>, Seq<char>)>,
    name: Seq<char>,
    value: Seq<char>,
    whole: bool,
    at: nat,
)
    ensures
        match dynamic_from(fields, name, value, whole, at) {
            Some(k) => at <= k < fields.len() && dynamic_holds(fields, k as int, name, value, whole)
                && forall|j: int| at <= j < k ==> !#[trigger] dynamic_holds(fields, j, name, value, whole),
            None => forall|j: int|
                at <= j < fields.len() ==> !#[trigger] dynamic_holds(fields, j, name, value, whole),
        },
    decreases fields.len() - at,
{
    if at < fields.len() {
        lemma_dynamic_first(fields, name, value, whole, at + 1);
    }
}

/// Whether the entry at `index`, static or dynamic, holds `name` and,
/// where `whole`, `value`.
pub open spec fn holds_at(
    fields: Seq<(Seq<char>, Seq<char>)>,
    index: nat,
    name: Seq<char>,
    value: Seq<char>,
    whole: bool,
) -> bool {
    if 1 <= index <= STATIC_LEN {
        static_holds(index, name, value, whole)
    } else if STATIC_LEN < index < STATIC_LEN + 1 + fields.len() {
        dynamic_holds(fields, index - STATIC_LEN - 1, name, value, whole)
    } else {
        false
    }
}

/// What `find` names is the least index that holds the whole field; where
/// none does, the least that holds the name; and nothing where neither is
/// in the table.
pub proof fn law_found_is_least(fields: Seq<(Seq<char>, Seq<char>)>, name: Seq<char>, value: Seq<char>)
    requires
        fields.len() + STATIC_LEN < usize::MAX,
    ensures
        match found(fields, name, value) {
            Some(Found::Field(index)) => holds_at(fields, index as nat, name, value, true) && forall|j: nat|
                j < index ==> !#[trigger] holds_at(fields, j, name, value, true),
            Some(Found::Name(index)) => holds_at(fields, index as nat, name, value, false) && (forall|
                j: nat,
            | j < index ==> !#[trigger] holds_at(fields, j, name, value, false)) && forall|j: nat|
                !#[trigger] holds_at(fields, j, name, value, true),
            None => forall|j: nat| !#[trigger] holds_at(fields, j, name, value, false),
        },
{
    lemma_static_first(name, value, true, 1);
    lemma_static_first(name, value, false, 1);
    lemma_dynamic_first(fields, name, value, true, 0);
    lemma_dynamic_first(fields, name, value, false, 0);
    assert forall|j: nat| #[trigger] holds_at(fields, j, name, value, true) implies holds_at(
        fields,
        j,
        name,
        value,
        false,
    ) by {}
    match found(fields, name, value) {
        Some(Found::Field(index)) => {
            assert forall|j: nat| j < index implies !#[trigger] holds_at(fields, j, name, value, true) by {
                if STATIC_LEN < j {
                    let k = j - STATIC_LEN - 1;
                    assert(!dynamic_holds(fields, k, name, value, true));
                }
            }
        },
        Some(Found::Name(index)) => {
            assert forall|j: nat| j < index implies !#[trigger] holds_at(fields, j, name, value, false) by {
                if STATIC_LEN < j {
                    let k = j - STATIC_LEN - 1;
                    assert(!dynamic_holds(fields, k, name, value, false));
                }
            }
            assert forall|j: nat| !#[trigger] holds_at(fields, j, name, value, true) by {
                if STATIC_LEN < j < STATIC_LEN + 1 + fields.len() {
                    let k = j - STATIC_LEN - 1;
                    assert(!dynamic_holds(fields, k, name, value, true));
                }
            }
        },
        None => {
            assert forall|j: nat| !#[trigger] holds_at(fields, j, name, value, false) by {
                if STATIC_LEN < j < STATIC_LEN + 1 + fields.len() {
                    let k = j - STATIC_LEN - 1;
                    assert(!dynamic_holds(fields, k, name, value, false));
                }
            }
        },
    }
}

} // verus!
