//! What comes back from a read, as plain values.

use vstd::prelude::*;

verus! {

/// What a read brought.
pub open spec fn received(read: ReadOutcome) -> Seq<u8> {
    match read {
        ReadOutcome::Data(bytes) => bytes@,
        _ => Seq::empty(),
    }
}

/// The outcome of one read from a stream.
#[derive(Debug)]
pub enum ReadOutcome {
    /// The other side has closed the stream.
    Eof,
    /// Some bytes, at least one.
    Data(Vec<u8>),
    /// Nothing came in time.
    TimedOut,
    /// The read failed, in the system's words.
    Failed(String),
}

/// What several reads brought, one behind the other.
pub open spec fn received_in_all(reads: Seq<ReadOutcome>) -> Seq<u8>
    decreases reads.len(),
{
    if reads.len() == 0 {
        Seq::empty()
    } else {
        received_in_all(reads.drop_last()) + received(reads.last())
    }
}

/// Reads bring the bytes that came, all of them and in their order; the end of a stream, a time
/// that is over and a failure bring none.
pub proof fn law_reads_bring_what_came(
    a: Seq<ReadOutcome>,
    b: Seq<ReadOutcome>,
    bytes: Vec<u8>,
    words: String,
)
    ensures
        received_in_all(a + b) == received_in_all(a) + received_in_all(b),
        received_in_all(seq![ReadOutcome::Data(bytes)]) == bytes@,
        received_in_all(seq![ReadOutcome::Eof]).len() == 0,
        received_in_all(seq![ReadOutcome::TimedOut]).len() == 0,
        received_in_all(seq![ReadOutcome::Failed(words)]).len() == 0,
    decreases b.len(),
{
    reveal_with_fuel(received_in_all, 2);
    let nothing = Seq::<ReadOutcome>::empty();
    assert(seq![ReadOutcome::Data(bytes)].drop_last() =~= nothing);
    assert(seq![ReadOutcome::Eof].drop_last() =~= nothing);
    assert(seq![ReadOutcome::TimedOut].drop_last() =~= nothing);
    assert(seq![ReadOutcome::Failed(words)].drop_last() =~= nothing);
    assert(received_in_all(seq![ReadOutcome::Data(bytes)]) =~= bytes@);
    if b.len() == 0 {
        assert(a + b =~= a);
        assert(received_in_all(a) + received_in_all(b) =~= received_in_all(a));
    } else {
        law_reads_bring_what_came(a, b.drop_last(), bytes, words);
        assert((a + b).drop_last() =~= a + b.drop_last());
        assert(received_in_all(a + b) =~= received_in_all(a) + received_in_all(b));
    }
}

} // verus!
