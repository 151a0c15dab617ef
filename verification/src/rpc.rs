//! Shared request/response record types of the engine, the mathematical
//! views they are specified through, and the length-prefixed framing that
//! the worker transport uses.
use vstd::prelude::*;

verus! {

#[derive(Debug)]
pub struct WorkerInfo {
    pub pid: u32,
    pub port: u16,
    pub hostname: String,
}

/// A cell value: floats are carried as IEEE 754 binary64 bit patterns.
#[derive(Debug, Clone)]
pub enum ScalarValue {
    Int(i64),
    Float(u64),
    Str(String),
    Bool(bool),
}

/// Mathematical view of a scalar.
pub ghost enum ScalarV {
    Int(int),
    Float(u64),
    Str(Seq<char>),
    Bool(bool),
}

impl View for ScalarValue {
    type V = ScalarV;

    open spec fn view(&self) -> ScalarV {
        match self {
            ScalarValue::Int(i) => ScalarV::Int(*i as int),
            ScalarValue::Float(b) => ScalarV::Float(*b),
            ScalarValue::Str(s) => ScalarV::Str(s@),
            ScalarValue::Bool(b) => ScalarV::Bool(*b),
        }
    }
}

/// View of an optional scalar.
pub open spec fn opt_view(v: Option<ScalarValue>) -> Option<ScalarV> {
    match v {
        Some(s) => Some(s@),
        None => None,
    }
}

#[derive(Debug, Clone, Copy, PartialEq, Eq, Structural)]
pub enum Predicate {
    Eq,
    Lt,
    Gt,
    Le,
    Ge,
    Between,
}

#[derive(Debug, Clone, Copy, PartialEq, Eq, Structural)]
pub enum AggregateFn {
    Count,
    Sum,
    Avg,
    Min,
    Max,
}

#[derive(Debug, Clone)]
pub struct FilterExpr {
    pub column: String,
    pub pred: Predicate,
    pub value: ScalarValue,
    /// Upper bound, used for BETWEEN.
    pub value_hi: Option<ScalarValue>,
}

pub ghost struct FilterV {
    pub column: Seq<char>,
    pub pred: Predicate,
    pub value: ScalarV,
    pub value_hi: Option<ScalarV>,
}

impl View for FilterExpr {
    type V = FilterV;

    open spec fn view(&self) -> FilterV {
        FilterV {
            column: self.column@,
            pred: self.pred,
            value: self.value@,
            value_hi: match self.value_hi {
                Some(v) => Some(v@),
                None => None,
            },
        }
    }
}

#[derive(Debug, Clone)]
pub struct AggregateExpr {
    pub func: AggregateFn,
    /// None for COUNT(*).
    pub column: Option<String>,
    pub output_name: String,
}

pub ghost struct AggregateExprV {
    pub func: AggregateFn,
    pub column: Option<Seq<char>>,
    pub output_name: Seq<char>,
}

impl View for AggregateExpr {
    type V = AggregateExprV;

    open spec fn view(&self) -> AggregateExprV {
        AggregateExprV {
            func: self.func,
            column: match self.column {
                Some(ref c) => Some(c@),
                None => None,
            },
            output_name: self.output_name@,
        }
    }
}

#[derive(Debug, Clone)]
pub struct QueryRequest {
    pub query: String,
    pub projections: Vec<String>,
    pub aggregates: Vec<AggregateExpr>,
    pub table: String,
    pub filters: Vec<FilterExpr>,
    pub group_by: Vec<String>,
}

#[derive(Debug, Clone, Copy, PartialEq, Eq, Structural)]
pub enum ValueType {
    Int,
    Float,
}

impl Default for ValueType {
    fn default() -> (r: Self)
        ensures
            r == ValueType::Float,
    {
        ValueType::Float
    }
}

/// Running totals of one aggregate under one group key; `sum`, `min` and
/// `max` are IEEE 754 binary64 bit patterns.
#[derive(Debug, Clone, Copy)]
pub struct AggregateState {
    pub sum: u64,
    pub count: u64,
    pub min: Option<u64>,
    pub max: Option<u64>,
    pub value_type: ValueType,
}

impl Default for AggregateState {
    fn default() -> (r: Self)
        ensures
            r == AggregateState::init(),
    {
        AggregateState { sum: 0, count: 0, min: None, max: None, value_type: ValueType::Float }
    }
}

impl AggregateState {
    /// The state before any row contributed.
    pub open spec fn init() -> AggregateState {
        AggregateState { sum: 0, count: 0, min: None, max: None, value_type: ValueType::Float }
    }
}

/// Map from aggregate output name to its accumulator, with unique keys.
#[derive(Debug, Clone)]
pub struct GroupAggregate {
    pub entries: Vec<(String, AggregateState)>,
}

/// Map from group key to the accumulators of that group, with unique keys.
#[derive(Debug, Clone)]
pub struct GroupMap {
    pub entries: Vec<(String, GroupAggregate)>,
}

/// The map denoted by an association list, later entries winning.
pub open spec fn assoc_map<V>(s: Seq<(Seq<char>, V)>) -> Map<Seq<char>, V>
    decreases s.len(),
{
    if s.len() == 0 {
        Map::empty()
    } else {
        assoc_map(s.drop_last()).insert(s.last().0, s.last().1)
    }
}

/// Key views of an association list.
pub open spec fn assoc_keys<V>(s: Seq<(Seq<char>, V)>) -> Seq<Seq<char>> {
    s.map_values(|e: (Seq<char>, V)| e.0)
}

/// No key view occurs twice.
pub open spec fn assoc_unique<V>(s: Seq<(Seq<char>, V)>) -> bool {
    forall|i: int, j: int| 0 <= i < j < s.len() ==> s[i].0 != s[j].0
}

pub proof fn lemma_assoc_map_index<V>(s: Seq<(Seq<char>, V)>, i: int)
    requires
        assoc_unique(s),
        0 <= i < s.len(),
    ensures
        assoc_map(s).contains_key(s[i].0),
        assoc_map(s)[s[i].0] == s[i].1,
    decreases s.len(),
{
    if i < s.len() - 1 {
        lemma_assoc_map_index(s.drop_last(), i);
    }
}

pub proof fn lemma_assoc_map_domain<V>(s: Seq<(Seq<char>, V)>, k: Seq<char>)
    requires
        assoc_map(s).contains_key(k),
    ensures
        exists|i: int| 0 <= i < s.len() && s[i].0 == k,
    decreases s.len(),
{
    if s.len() > 0 && s.last().0 != k {
        lemma_assoc_map_domain(s.drop_last(), k);
    }
}

pub proof fn lemma_assoc_map_absent<V>(s: Seq<(Seq<char>, V)>, k: Seq<char>)
    requires
        forall|i: int| 0 <= i < s.len() ==> s[i].0 != k,
    ensures
        !assoc_map(s).contains_key(k),
    decreases s.len(),
{
    if s.len() > 0 {
        lemma_assoc_map_absent(s.drop_last(), k);
    }
}

impl GroupAggregate {
    pub open spec fn entry_views(&self) -> Seq<(Seq<char>, AggregateState)> {
        self.entries@.map_values(|e: (String, AggregateState)| (e.0@, e.1))
    }

    pub open spec fn wf(&self) -> bool {
        assoc_unique(self.entry_views())
    }

    pub open spec fn spec_view(&self) -> Map<Seq<char>, AggregateState> {
        assoc_map(self.entry_views())
    }

    pub fn new() -> (r: GroupAggregate)
        ensures
            r.wf(),
            r@ == Map::<Seq<char>, AggregateState>::empty(),
            r.entries@.len() == 0,
    {
        let r = GroupAggregate { entries: Vec::new() };
        proof {
            assert(r.entry_views() =~= Seq::empty());
        }
        r
    }

    pub fn get(&self, k: &str) -> (r: Option<AggregateState>)
        requires
            self.wf(),
        ensures
            r == if self@.contains_key(k@) {
                Some(self@[k@])
            } else {
                None::<AggregateState>
            },
    {
        let mut i: usize = 0;
        while i < self.entries.len()
            invariant
                self.wf(),
                i <= self.entries@.len(),
                forall|j: int| 0 <= j < i ==> self.entry_views()[j].0 != k@,
            decreases self.entries@.len() - i,
        {
            if crate::strutil::eq_str(self.entries[i].0.as_str(), k) {
                proof {
                    lemma_assoc_map_index(self.entry_views(), i as int);
                }
                return Some(self.entries[i].1);
            }
            i += 1;
        }
        proof {
            lemma_assoc_map_absent(self.entry_views(), k@);
        }
        None
    }

    /// Insert or replace the accumulator under a name.
    pub fn set(&mut self, k: String, v: AggregateState)
        requires
            old(self).wf(),
        ensures
            final(self).wf(),
            final(self)@ == old(self)@.insert(k@, v),
    {
        let ghost pre = self.entry_views();
        let mut i: usize = 0;
        while i < self.entries.len()
            invariant
                self == old(self),
                old(self).wf(),
                pre == old(self).entry_views(),
                i <= self.entries@.len(),
                forall|j: int| 0 <= j < i ==> pre[j].0 != k@,
            decreases self.entries@.len() - i,
        {
            if crate::strutil::eq_str(self.entries[i].0.as_str(), k.as_str()) {
                self.entries[i] = (k, v);
                proof {
                    lemma_set_replace(pre, i as int, k@, v);
                    assert(self.entry_views() =~= pre.update(i as int, (k@, v)));
                    assert(old(self)@ == assoc_map(pre));
                    assert(self@ == assoc_map(pre).insert(k@, v));
                }
                return;
            }
            i += 1;
        }
        self.entries.push((k, v));
        proof {
            assert(self.entry_views() =~= pre.push((k@, v)));
            assert(self.entry_views().drop_last() =~= pre);
        }
    }
}

impl View for GroupAggregate {
    type V = Map<Seq<char>, AggregateState>;

    open spec fn view(&self) -> Map<Seq<char>, AggregateState> {
        self.spec_view()
    }
}

/// Replacing the entry that holds a key leaves the same map as inserting
/// that key.
proof fn lemma_set_replace<V>(s: Seq<(Seq<char>, V)>, i: int, k: Seq<char>, v: V)
    requires
        assoc_unique(s),
        0 <= i < s.len(),
        s[i].0 == k,
    ensures
        assoc_unique(s.update(i, (k, v))),
        assoc_map(s.update(i, (k, v))) == assoc_map(s).insert(k, v),
    decreases s.len(),
{
    let t = s.update(i, (k, v));
    assert forall|a: int, b: int| 0 <= a < b < t.len() implies t[a].0 != t[b].0 by {
        assert(s[a].0 != s[b].0);
    }
    if i == s.len() - 1 {
        assert(t.drop_last() =~= s.drop_last());
        assert(t.last() == (k, v));
    } else {
        lemma_set_replace(s.drop_last(), i, k, v);
        assert(t.drop_last() =~= s.drop_last().update(i, (k, v)));
        assert(t.last() == s.last());
        assert(assoc_map(t) == assoc_map(s.drop_last()).insert(k, v).insert(s.last().0, s.last().1));
        assert(s.last().0 != k);
        assert(assoc_map(s.drop_last()).insert(k, v).insert(s.last().0, s.last().1)
            =~= assoc_map(s.drop_last()).insert(s.last().0, s.last().1).insert(k, v));
    }
}

impl GroupMap {
    pub open spec fn entry_views(&self) -> Seq<(Seq<char>, Map<Seq<char>, AggregateState>)> {
        self.entries@.map_values(|e: (String, GroupAggregate)| (e.0@, e.1@))
    }

    pub open spec fn wf(&self) -> bool {
        &&& assoc_unique(self.entry_views())
        &&& forall|i: int| 0 <= i < self.entries@.len() ==> (#[trigger] self.entries@[i].1).wf()
    }

    pub open spec fn spec_view(&self) -> Map<Seq<char>, Map<Seq<char>, AggregateState>> {
        assoc_map(self.entry_views())
    }

    pub fn new() -> (r: GroupMap)
        ensures
            r.wf(),
            r@ == Map::<Seq<char>, Map<Seq<char>, AggregateState>>::empty(),
            r.entries@.len() == 0,
    {
        let r = GroupMap { entries: Vec::new() };
        proof {
            assert(r.entry_views() =~= Seq::empty());
        }
        r
    }

    pub fn get_index(&self, k: &str) -> (r: Option<usize>)
        requires
            self.wf(),
        ensures
            match r {
                Some(i) => i < self.entries@.len() && self.entries@[i as int].0@ == k@
                    && self@.contains_key(k@) && self@[k@] == self.entries@[i as int].1@,
                None => !self@.contains_key(k@),
            },
    {
        let mut i: usize = 0;
        while i < self.entries.len()
            invariant
                self.wf(),
                i <= self.entries@.len(),
                forall|j: int| 0 <= j < i ==> self.entry_views()[j].0 != k@,
            decreases self.entries@.len() - i,
        {
            if crate::strutil::eq_str(self.entries[i].0.as_str(), k) {
                proof {
                    lemma_assoc_map_index(self.entry_views(), i as int);
                }
                return Some(i);
            }
            i += 1;
        }
        proof {
            lemma_assoc_map_absent(self.entry_views(), k@);
        }
        None
    }

    /// Insert or replace the group under a key.
    pub fn set(&mut self, k: String, v: GroupAggregate)
        requires
            old(self).wf(),
            v.wf(),
        ensures
            final(self).wf(),
            final(self)@ == old(self)@.insert(k@, v@),
    {
        let ghost pre = self.entry_views();
        let mut i: usize = 0;
        while i < self.entries.len()
            invariant
                self == old(self),
                old(self).wf(),
                v.wf(),
                pre == old(self).entry_views(),
                i <= self.entries@.len(),
                forall|j: int| 0 <= j < i ==> pre[j].0 != k@,
            decreases self.entries@.len() - i,
        {
            if crate::strutil::eq_str(self.entries[i].0.as_str(), k.as_str()) {
                self.entries[i] = (k, v);
                proof {
                    lemma_set_replace(pre, i as int, k@, v@);
                    assert(self.entry_views() =~= pre.update(i as int, (k@, v@)));
                    assert forall|j: int| 0 <= j < self.entries@.len() implies (
                    #[trigger] self.entries@[j].1).wf() by {
                        if j != i as int {
                            assert(old(self).entries@[j].1.wf());
                        }
                    }
                }
                return;
            }
            i += 1;
        }
        self.entries.push((k, v));
        proof {
            assert(self.entry_views() =~= pre.push((k@, v@)));
            assert(self.entry_views().drop_last() =~= pre);
            assert forall|j: int| 0 <= j < self.entries@.len() implies (
            #[trigger] self.entries@[j].1).wf() by {
                if j != self.entries@.len() - 1 {
                    assert(old(self).entries@[j].1.wf());
                }
            }
        }
    }
}

impl View for GroupMap {
    type V = Map<Seq<char>, Map<Seq<char>, AggregateState>>;

    open spec fn view(&self) -> Map<Seq<char>, Map<Seq<char>, AggregateState>> {
        self.spec_view()
    }
}

/// One worker's contribution to a query.
#[derive(Debug)]
pub struct PartialAggregate {
    pub worker_port: u16,
    pub segment: u32,
    pub rows_scanned: u64,
    pub segments_skipped: u64,
    pub exec_ms: u64,
    pub groups: GroupMap,
}

/// Little-endian bytes of the low `w` bytes of a value.
pub open spec fn le_bytes(n: u64, w: nat) -> Seq<u8> {
    Seq::new(w, |i: int| (n >> (8 * i)) as u8)
}

/// The value read back from little-endian bytes.
pub open spec fn le_val(b: Seq<u8>) -> nat
    decreases b.len(),
{
    if b.len() == 0 {
        0
    } else {
        (b[0] + 256 * le_val(b.drop_first())) as nat
    }
}

/// Frame a payload for the worker transport: a 4-byte little-endian
/// length, then the payload itself.
pub fn frame_message(payload: &Vec<u8>) -> (r: Result<Vec<u8>, String>)
    ensures
        payload@.len() <= u32::MAX ==> (r matches Ok(f) && f@ == le_bytes(
            payload@.len() as u64,
            4,
        ) + payload@),
        payload@.len() > u32::MAX ==> r is Err,
{
    if payload.len() > u32::MAX as usize {
        return Err("Frame payload too large".to_string());
    }
    let n: u64 = payload.len() as u64;
    let mut out: Vec<u8> = Vec::new();
    out.push(#[verifier::truncate] (n as u8));
    out.push(#[verifier::truncate] ((n >> 8) as u8));
    out.push(#[verifier::truncate] ((n >> 16) as u8));
    out.push(#[verifier::truncate] ((n >> 24) as u8));
    proof {
        assert(n >> 0 == n) by (bit_vector);
        assert(le_bytes(n, 4)[0] == (n >> (8 * 0)) as u8 && le_bytes(n, 4)[1] == (n >> (8 * 1))
            as u8 && le_bytes(n, 4)[2] == (n >> (8 * 2)) as u8 && le_bytes(n, 4)[3] == (n >> (8
            * 3)) as u8);
        assert(out@ =~= le_bytes(n, 4));
    }
    let mut i: usize = 0;
    while i < payload.len()
        invariant
            i <= payload@.len(),
            out@ == le_bytes(payload@.len() as u64, 4) + payload@.take(i as int),
        decreases payload@.len() - i,
    {
        out.push(payload[i]);
        i += 1;
        proof {
            assert(out@ =~= le_bytes(payload@.len() as u64, 4) + payload@.take(i as int));
        }
    }
    proof {
        assert(payload@.take(payload@.len() as int) =~= payload@);
    }
    Ok(out)
}

/// Whether a 4-byte prefix is the ASCII health probe `PING` rather
/// than a frame length.
pub fn is_ping_frame(h: &[u8]) -> (r: bool)
    requires
        h@.len() == 4,
    ensures
        r <==> h@ == seq![80u8, 73u8, 78u8, 71u8],
{
    let r = h[0] == 80 && h[1] == 73 && h[2] == 78 && h[3] == 71;
    proof {
        if r {
            assert(h@ =~= seq![80u8, 73u8, 78u8, 71u8]);
        }
    }
    r
}

/// Read a 4-byte little-endian frame length.
pub fn parse_frame_len(h: &[u8]) -> (r: u32)
    requires
        h@.len() == 4,
    ensures
        r == le_val(h@),
        h@ == le_bytes(r as u64, 4),
{
    let b0: u32 = h[0] as u32;
    let b1: u32 = h[1] as u32;
    let b2: u32 = h[2] as u32;
    let b3: u32 = h[3] as u32;
    let r: u32 = b0 | (b1 << 8) | (b2 << 16) | (b3 << 24);
    proof {
        reveal_with_fuel(le_val, 6);
        let x0 = h@[0];
        let x1 = h@[1];
        let x2 = h@[2];
        let x3 = h@[3];
        assert(h@.drop_first() =~= seq![x1, x2, x3]);
        assert(seq![x1, x2, x3].drop_first() =~= seq![x2, x3]);
        assert(seq![x2, x3].drop_first() =~= seq![x3]);
        assert(seq![x3].drop_first() =~= Seq::<u8>::empty());
        assert(le_val(seq![x3]) == x3);
        assert(le_val(seq![x2, x3]) == x2 + 256 * x3);
        assert(le_val(seq![x1, x2, x3]) == x1 + 256 * (x2 + 256 * x3));
        assert(le_val(h@) == x0 + 0x100 * x1 + 0x10000 * x2 + 0x1000000 * x3);
        assert((x0 as u32) | ((x1 as u32) << 8) | ((x2 as u32) << 16) | ((x3 as u32) << 24) == x0
            + 0x100 * x1 + 0x10000 * x2 + 0x1000000 * x3) by (bit_vector);
        let n = r as u64;
        assert(((n >> 0) as u8) == x0 && ((n >> 8) as u8) == x1 && ((n >> 16) as u8) == x2 && ((n
            >> 24) as u8) == x3) by (bit_vector)
            requires
                n == (x0 as u64) + 0x100 * (x1 as u64) + 0x10000 * (x2 as u64) + 0x1000000 * (x3
                    as u64),
        ;
        assert forall|i: int| 0 <= i < 4 implies le_bytes(n, 4)[i] == h@[i] by {
            if i == 0 {
                assert(le_bytes(n, 4)[0] == (n >> (8 * 0)) as u8);
                assert(n >> (8 * 0) == n >> 0);
            } else if i == 1 {
                assert(le_bytes(n, 4)[1] == (n >> (8 * 1)) as u8);
            } else if i == 2 {
                assert(le_bytes(n, 4)[2] == (n >> (8 * 2)) as u8);
            } else {
                assert(le_bytes(n, 4)[3] == (n >> (8 * 3)) as u8);
            }
        }
        assert(h@ =~= le_bytes(r as u64, 4));
    }
    r
}

} // verus!
