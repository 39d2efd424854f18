use vstd::prelude::*;

verus! {

/// The two kinds of gameplay event.
#[derive(PartialEq, Eq, Structural, Clone, Copy, Debug)]
pub enum NoteKind {
    /// A zero-duration hit.
    Tap,
    /// A sustained event with a positive duration.
    Hold,
}

/// One gameplay event of the beatmap.
///
/// Times are in microseconds. `energy` is the band energy that triggered the
/// note, in the fixed-point scale of the analysis; it is a ranking key for lane
/// balancing, not a calibrated measurement.
#[derive(PartialEq, Eq, Structural, Clone, Copy, Debug)]
pub struct Note {
    pub timestamp: u64,
    pub lane: usize,
    pub note_type: NoteKind,
    pub duration: u64,
    pub energy: u64,
}

/// The wire label of a note kind.
pub open spec fn kind_label(k: NoteKind) -> Seq<char> {
    match k {
        NoteKind::Tap => seq!['s', 'i', 'n', 'g', 'l', 'e'],
        NoteKind::Hold => seq!['h', 'o', 'l', 'd'],
    }
}

impl NoteKind {
    /// The label that the output format uses for this kind.
    pub fn label(&self) -> (r: String)
        ensures
            r@ == kind_label(*self),
    {
        match self {
            NoteKind::Tap => {
                let s = String::from_str("single");
                proof {
                    reveal_strlit("single");
                    assert(s@ =~= kind_label(NoteKind::Tap));
                }
                s
            },
            NoteKind::Hold => {
                let s = String::from_str("hold");
                proof {
                    reveal_strlit("hold");
                    assert(s@ =~= kind_label(NoteKind::Hold));
                }
                s
            },
        }
    }

    /// Reads a label of the output format back; `None` for any other text.
    pub fn from_label(s: &str) -> (r: Option<NoteKind>)
        ensures
            r == Some(NoteKind::Tap) <==> s@ == kind_label(NoteKind::Tap),
            r == Some(NoteKind::Hold) <==> s@ == kind_label(NoteKind::Hold),
            r.is_none() <==> (s@ != kind_label(NoteKind::Tap) && s@ != kind_label(NoteKind::Hold)),
    {
        proof {
            reveal_strlit("single");
            reveal_strlit("hold");
            assert("single"@ =~= kind_label(NoteKind::Tap));
            assert("hold"@ =~= kind_label(NoteKind::Hold));
            assert(kind_label(NoteKind::Tap).len() != kind_label(NoteKind::Hold).len());
        }
        if str_eq(s, "single") {
            Some(NoteKind::Tap)
        } else if str_eq(s, "hold") {
            Some(NoteKind::Hold)
        } else {
            None
        }
    }
}

fn str_eq(a: &str, b: &str) -> (r: bool)
    ensures
        r == (a@ == b@),
{
    let n = a.unicode_len();
    if n != b.unicode_len() {
        return false;
    }
    let mut i: usize = 0;
    while i < n
        invariant
            n == a@.len(),
            n == b@.len(),
            i <= n,
            forall|j: int| 0 <= j < i ==> a@[j] == b@[j],
        decreases n - i,
    {
        if a.get_char(i) != b.get_char(i) {
            return false;
        }
        i = i + 1;
    }
    proof {
        assert(a@ =~= b@);
    }
    true
}

/// Reading back the label of a kind gives that kind.
pub proof fn lemma_label_round_trip(k: NoteKind)
    ensures
        kind_label(k) == kind_label(NoteKind::Tap) ==> k == NoteKind::Tap,
        kind_label(k) == kind_label(NoteKind::Hold) ==> k == NoteKind::Hold,
        kind_label(NoteKind::Tap) != kind_label(NoteKind::Hold),
{
    assert(kind_label(NoteKind::Tap).len() != kind_label(NoteKind::Hold).len());
}

} // verus!
