use vstd::prelude::*;

verus! {

/// One record of a log segment: a key set to a value, or a key removed.
#[derive(Debug)]
pub enum KvsCommand {
    Put(String, String),
    Remove(String),
}

/// A record as a mathematical value.
pub enum CommandView {
    Put(Seq<char>, Seq<char>),
    Remove(Seq<char>),
}

impl View for KvsCommand {
    type V = CommandView;

    open spec fn view(&self) -> CommandView {
        match self {
            KvsCommand::Put(k, v) => CommandView::Put(k@, v@),
            KvsCommand::Remove(k) => CommandView::Remove(k@),
        }
    }
}

/// The key→value mapping after `c` is applied to `m`.
pub open spec fn apply(m: Map<Seq<char>, Seq<char>>, c: CommandView) -> Map<Seq<char>, Seq<char>> {
    match c {
        CommandView::Put(k, v) => m.insert(k, v),
        CommandView::Remove(k) => m.remove(k),
    }
}

/// The key→value mapping after the records `cs` are applied to `m` in order.
pub open spec fn apply_all(m: Map<Seq<char>, Seq<char>>, cs: Seq<CommandView>) -> Map<
    Seq<char>,
    Seq<char>,
>
    decreases cs.len(),
{
    if cs.len() == 0 {
        m
    } else {
        apply(apply_all(m, cs.drop_last()), cs.last())
    }
}

/// Applying two runs of records one after the other is applying their
/// concatenation.
pub proof fn lemma_apply_all_concat(
    m: Map<Seq<char>, Seq<char>>,
    a: Seq<CommandView>,
    b: Seq<CommandView>,
)
    ensures
        apply_all(m, a + b) == apply_all(apply_all(m, a), b),
    decreases b.len(),
{
    if b.len() == 0 {
        assert(a + b =~= a);
    } else {
        lemma_apply_all_concat(m, a, b.drop_last());
        assert((a + b).drop_last() =~= a + b.drop_last());
        assert((a + b).last() == b.last());
    }
}

} // verus!
