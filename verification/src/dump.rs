//! What a dump consists of and under which name it is written.
//!
//! A dump is never written over the data file in which vectors of the index
//! lie: where the dump would write that very file, it gets a name of its
//! own, the requested name followed by `-` and a number. Any other file of
//! the requested name is written over.

use crate::element::Element;
use crate::hnsw::Hnsw;
use crate::metric::Metric;
use vstd::prelude::*;
use vstd::string::StringExecFns;

verus! {

/// How much of an index a dump holds.
#[derive(Clone, Copy, Debug, PartialEq, Eq, Structural)]
pub enum DumpMode {
    /// The graph and the vectors.
    Full,
    /// The graph alone, for an index whose vectors lie in a shared data file.
    GraphOnly,
}

/// A dump: the name under which it is to be written, and its streams.
pub struct Dump {
    pub basename: String,
    pub graph: Vec<u8>,
    pub data: Option<Vec<u8>>,
}

/// The decimal digit `d` as a character.
pub open spec fn digit(d: nat) -> char {
    if d == 0 {
        '0'
    } else if d == 1 {
        '1'
    } else if d == 2 {
        '2'
    } else if d == 3 {
        '3'
    } else if d == 4 {
        '4'
    } else if d == 5 {
        '5'
    } else if d == 6 {
        '6'
    } else if d == 7 {
        '7'
    } else if d == 8 {
        '8'
    } else {
        '9'
    }
}

/// The decimal digits of `n`.
pub open spec fn digits(n: nat) -> Seq<char>
    decreases n,
{
    if n < 10 {
        seq![digit(n)]
    } else {
        digits(n / 10).push(digit(n % 10))
    }
}

/// The name of a dump that must not be written under `base`.
pub open spec fn unique_name(base: Seq<char>, nonce: u64) -> Seq<char> {
    base + seq!['-'] + digits(nonce as nat)
}

/// The name under which a dump asked for as `base` is written: `base`
/// itself, unless the dump would write the data file in use.
pub open spec fn dump_name(base: Seq<char>, in_use: bool, nonce: u64) -> Seq<char> {
    if in_use {
        unique_name(base, nonce)
    } else {
        base
    }
}

/// The name of the file that holds the graph of the dump `base`.
pub open spec fn graph_file(base: Seq<char>) -> Seq<char> {
    base + ".hnsw.graph"@
}

/// The name of the file that holds the vectors of the dump `base`.
pub open spec fn data_file(base: Seq<char>) -> Seq<char> {
    base + ".hnsw.data"@
}

/// A name of its own is never the requested name.
pub proof fn lemma_unique_name_differs(base: Seq<char>, nonce: u64)
    ensures
        unique_name(base, nonce) != base,
{
    assert(unique_name(base, nonce).len() > base.len());
}

/// The decimal digit `d` as a string.
fn digit_str(d: u64) -> (s: &'static str)
    requires
        d < 10,
    ensures
        s@ == seq![digit(d as nat)],
{
    proof {
        reveal_strlit("0");
        reveal_strlit("1");
        reveal_strlit("2");
        reveal_strlit("3");
        reveal_strlit("4");
        reveal_strlit("5");
        reveal_strlit("6");
        reveal_strlit("7");
        reveal_strlit("8");
        reveal_strlit("9");
    }
    let s = if d == 0 {
        "0"
    } else if d == 1 {
        "1"
    } else if d == 2 {
        "2"
    } else if d == 3 {
        "3"
    } else if d == 4 {
        "4"
    } else if d == 5 {
        "5"
    } else if d == 6 {
        "6"
    } else if d == 7 {
        "7"
    } else if d == 8 {
        "8"
    } else {
        "9"
    };
    assert(s@ =~= seq![digit(d as nat)]);
    s
}

/// The number `n` in decimal digits.
pub fn decimal(n: u64) -> (r: String)
    ensures
        r@ == digits(n as nat),
    decreases n,
{
    if n < 10 {
        String::from_str(digit_str(n))
    } else {
        let mut r = decimal(n / 10);
        r.append(digit_str(n % 10));
        assert(r@ =~= digits(n as nat));
        r
    }
}

/// The name under which a dump of vectors asked for as `basename` is
/// written. `mapped` says whether vectors of the index lie in a mapped data
/// file, and `same_file` whether the data file of the name `basename` is
/// that very file. Where both hold the dump gets the name `basename-nonce`;
/// else it keeps `basename`, whether or not files of that name exist.
pub fn choose_basename(basename: &str, mapped: bool, same_file: bool, nonce: u64) -> (r: String)
    ensures
        r@ == dump_name(basename@, mapped && same_file, nonce),
        mapped && same_file ==> r@ != basename@,
        !(mapped && same_file) ==> r@ == basename@,
{
    let mut r = String::from_str(basename);
    if mapped && same_file {
        proof {
            reveal_strlit("-");
            lemma_unique_name_differs(basename@, nonce);
        }
        r.append("-");
        let d = decimal(nonce);
        r.append(d.as_str());
        assert(r@ =~= unique_name(basename@, nonce));
    }
    r
}

/// The name of the file that holds the graph of the dump `basename`.
pub fn graph_file_name(basename: &str) -> (r: String)
    ensures
        r@ == graph_file(basename@),
{
    let mut r = String::from_str(basename);
    r.append(".hnsw.graph");
    r
}

/// The name of the file that holds the vectors of the dump `basename`.
pub fn data_file_name(basename: &str) -> (r: String)
    ensures
        r@ == data_file(basename@),
{
    let mut r = String::from_str(basename);
    r.append(".hnsw.data");
    r
}

impl<'b, T: Element, D: Metric<T>> Hnsw<'b, T, D> {
    /// Whether a dump in mode `mode` would write the data file in which
    /// vectors of the index lie: it writes a data file, the index has
    /// vectors in a mapped data file, and the file to be written is that
    /// file (`same_file`).
    pub open spec fn overwrites(&self, mode: DumpMode, same_file: bool) -> bool {
        mode == DumpMode::Full && self.datamap() && same_file
    }

    /// What `dump` returns.
    pub open spec fn dump_post(
        &self,
        mode: DumpMode,
        basename: Seq<char>,
        same_file: bool,
        nonce: u64,
        r: Dump,
    ) -> bool {
        &&& r.basename@ == dump_name(basename, self.overwrites(mode, same_file), nonce)
        &&& r.graph@ == self@.graph_bytes::<D>()
        &&& match mode {
            DumpMode::Full => r.data.is_some() && r.data.unwrap()@ == self@.data_bytes(),
            DumpMode::GraphOnly => r.data.is_none(),
        }
    }

    /// Dumps the index: its graph stream, in mode `Full` its data stream
    /// too, and the name under which they are to be written.
    ///
    /// `same_file` says whether the data file of the name `basename` is the
    /// file in which vectors of this index lie. The name is `basename`,
    /// unless the dump would write that file: then it is `basename-nonce`.
    /// A dump without vectors writes no data file and keeps the name, and
    /// so does a dump over a file that this index does not use.
    pub fn dump(&self, mode: DumpMode, basename: &str, same_file: bool, nonce: u64) -> (r: Dump)
        requires
            self.wf(),
        ensures
            self.dump_post(mode, basename@, same_file, nonce, r),
            self.overwrites(mode, same_file) ==> r.basename@ != basename@,
            !self.overwrites(mode, same_file) ==> r.basename@ == basename@,
    {
        let hit = match mode {
            DumpMode::Full => same_file,
            DumpMode::GraphOnly => false,
        };
        let name = choose_basename(basename, self.get_datamap_opt(), hit, nonce);
        let graph = self.dump_graph();
        let data = match mode {
            DumpMode::Full => Some(self.dump_data()),
            DumpMode::GraphOnly => None,
        };
        Dump { basename: name, graph, data }
    }
}

} // verus!
