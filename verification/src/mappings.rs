//! Bijective symbol table between instrument tickers and compact wire codes.
//!
//! The table is built once from the seed dataset by stable enumeration
//! order, so the code of an instrument is its position in the seed. After
//! construction it is read-only; lookups in either direction never touch
//! shared mutable state, so the table can be handed to any number of
//! concurrent readers.

use vstd::prelude::*;

use crate::models::seed_ids;
use crate::models::SetupError;
use crate::models::StockResponse;

verus! {

/// The exclusive upper bound on instrument counts: one code per distinct
/// two-byte wire code.
pub const MAX_CODES: usize = 0x10000;

/// Bijective ticker/code table; the code of a ticker is its index.
#[derive(Clone, Debug)]
pub struct TickerMapper {
    tickers: Vec<String>,
}

impl View for TickerMapper {
    type V = Seq<Seq<char>>;

    closed spec fn view(&self) -> Seq<Seq<char>> {
        self.tickers@.map_values(|s: String| s@)
    }
}

impl TickerMapper {
    /// Well-formedness: the table is a bijection between its tickers and
    /// the codes `0..len`, and every code fits in two bytes.
    pub open spec fn wf(self) -> bool {
        &&& self@.no_duplicates()
        &&& 1 <= self@.len() <= MAX_CODES
    }

    /// The code of an identifier: its unique position in the table.
    pub open spec fn spec_encode(self, id: Seq<char>) -> Option<u16> {
        if self@.contains(id) {
            Some(self@.index_of(id) as u16)
        } else {
            None
        }
    }

    /// The identifier of a code: the table entry at that position.
    pub open spec fn spec_decode(self, code: int) -> Option<Seq<char>> {
        if 0 <= code < self@.len() {
            Some(self@[code])
        } else {
            None
        }
    }

    /// Builds the table from the seed dataset, enumerating codes in seed
    /// order. Fails on an empty seed, on a duplicate ticker (the bijection
    /// would be ill-defined) and on more instruments than two-byte codes.
    pub fn new(stock_data: &StockResponse) -> (r: Result<TickerMapper, SetupError>)
        ensures
            ({
                let ids = seed_ids(stock_data.results@);
                &&& (r matches Ok(m) ==> m@ == ids && m.wf())
                &&& (r is Ok <==> 1 <= ids.len() <= MAX_CODES && ids.no_duplicates())
                &&& (r == Err::<TickerMapper, SetupError>(SetupError::EmptySeed) <==> ids.len()
                    == 0)
                &&& (r == Err::<TickerMapper, SetupError>(SetupError::TooManyInstruments) <==> ids.len()
                    > MAX_CODES)
                &&& (r == Err::<TickerMapper, SetupError>(SetupError::DuplicateTicker) <==> (1
                    <= ids.len() <= MAX_CODES && !ids.no_duplicates()))
            }),
    {
        let ghost ids = seed_ids(stock_data.results@);
        let n = stock_data.results.len();
        if n == 0 {
            return Err(SetupError::EmptySeed);
        }
        if n > MAX_CODES {
            return Err(SetupError::TooManyInstruments);
        }
        let mut tickers: Vec<String> = Vec::new();
        let mut i: usize = 0;
        while i < n
            invariant
                i <= n,
                n == stock_data.results@.len(),
                1 <= n <= MAX_CODES,
                ids == seed_ids(stock_data.results@),
                tickers@.len() == i,
                forall|k: int| 0 <= k < i ==> #[trigger] tickers@[k]@ == ids[k],
                forall|k: int, l: int|
                    0 <= k < i && 0 <= l < i && k != l ==> #[trigger] tickers@[k]@
                        != #[trigger] tickers@[l]@,
            decreases n - i,
        {
            let t = stock_data.results[i].ticker.clone();
            assert(t@ == ids[i as int]);
            let mut j: usize = 0;
            while j < i
                invariant
                    j <= i < n,
                    n <= MAX_CODES,
                    n == stock_data.results@.len(),
                    ids == seed_ids(stock_data.results@),
                    tickers@.len() == i,
                    t@ == ids[i as int],
                    forall|k: int| 0 <= k < i ==> #[trigger] tickers@[k]@ == ids[k],
                    forall|k: int| 0 <= k < j ==> #[trigger] tickers@[k]@ != t@,
                decreases i - j,
            {
                if tickers[j] == t {
                    assert(ids[j as int] == ids[i as int]);
                    assert(!ids.no_duplicates());
                    return Err(SetupError::DuplicateTicker);
                }
                j += 1;
            }
            tickers.push(t);
            i += 1;
        }
        let m = TickerMapper { tickers };
        proof {
            assert(m@ =~= ids);
        }
        Ok(m)
    }

    /// Looks the code of `ticker` up; `None` exactly for identifiers that
    /// are not in the table.
    pub fn encode(&self, ticker: &str) -> (r: Option<u16>)
        requires
            self.wf(),
        ensures
            r == self.spec_encode(ticker@),
    {
        let key: String = ticker.to_owned();
        let n = self.tickers.len();
        let mut i: usize = 0;
        while i < n
            invariant
                self.wf(),
                i <= n,
                n == self@.len(),
                key@ == ticker@,
                forall|k: int| 0 <= k < i ==> self@[k] != ticker@,
            decreases n - i,
        {
            if self.tickers[i] == key {
                proof {
                    assert(self@[i as int] == ticker@);
                    assert(self@.contains(ticker@));
                    let j = self@.index_of(ticker@);
                    assert(0 <= j < self@.len() && self@[j] == ticker@);
                    assert(j == i as int);
                }
                return Some(i as u16);
            }
            i += 1;
        }
        assert(!self@.contains(ticker@));
        None
    }

    /// Looks the ticker of `code` up; `None` exactly for codes outside the
    /// table.
    pub fn decode(&self, code: u16) -> (r: Option<String>)
        ensures
            match r {
                Some(s) => self.spec_decode(code as int) == Some(s@),
                None => self.spec_decode(code as int) is None,
            },
    {
        let idx = code as usize;
        if idx < self.tickers.len() {
            Some(self.tickers[idx].clone())
        } else {
            None
        }
    }

    /// The number of instruments in the table.
    pub fn len(&self) -> (n: usize)
        ensures
            n == self@.len(),
    {
        self.tickers.len()
    }

    /// The full code-to-ticker mapping, for handing the table out to a
    /// decoding client in one read-only piece.
    pub fn code_table(&self) -> (r: Vec<(u16, String)>)
        requires
            self.wf(),
        ensures
            r@.len() == self@.len(),
            forall|i: int|
                0 <= i < r@.len() ==> (#[trigger] r@[i]).0 == i as u16 && r@[i].1@ == self@[i],
    {
        let n = self.tickers.len();
        let mut r: Vec<(u16, String)> = Vec::new();
        let mut i: usize = 0;
        while i < n
            invariant
                self.wf(),
                i <= n,
                n == self@.len(),
                r@.len() == i,
                forall|k: int|
                    0 <= k < i ==> (#[trigger] r@[k]).0 == k as u16 && r@[k].1@ == self@[k],
            decreases n - i,
        {
            r.push((i as u16, self.tickers[i].clone()));
            i += 1;
        }
        r
    }
}

/// Encoding an identifier present in the table and decoding the resulting
/// code gives the identifier back.
pub proof fn lemma_encode_then_decode(m: TickerMapper, id: Seq<char>)
    requires
        m.wf(),
        m@.contains(id),
    ensures
        m.spec_encode(id) matches Some(c) && m.spec_decode(c as int) == Some(id),
{
    let j = m@.index_of(id);
    assert(0 <= j < m@.len() && m@[j] == id);
}

/// Decoding an in-range code and encoding the resulting identifier gives
/// the code back.
pub proof fn lemma_decode_then_encode(m: TickerMapper, code: int)
    requires
        m.wf(),
        0 <= code < m@.len(),
    ensures
        m.spec_decode(code) matches Some(id) && m.spec_encode(id) == Some(code as u16),
{
    let id = m@[code];
    assert(m@.contains(id));
    let j = m@.index_of(id);
    assert(0 <= j < m@.len() && m@[j] == id);
    assert(j == code);
}

} // verus!
