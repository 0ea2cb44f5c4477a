use crate::text::{chars_of, decimal, labelled_number};
use vstd::prelude::*;
use vstd::string::*;

verus! {

pub struct DaySix {}

/// Where the first marker of a packet begins, if the packet has one, and the
/// length of a marker.
pub struct SignalProcessor {
    marker_position: Option<usize>,
    marker_size: usize,
}

/// The `size` characters of `packet` from position `at` on differ from one
/// another, and at least one character follows them.
pub open spec fn is_marker_at(packet: Seq<char>, size: nat, at: int) -> bool {
    0 <= at && at + size < packet.len() && packet.subrange(at, at + size).no_duplicates()
}

/// `at` is the first position of `packet` at which a marker begins.
pub open spec fn is_first_marker(packet: Seq<char>, size: nat, at: int) -> bool {
    is_marker_at(packet, size, at) && forall|j: int| 0 <= j < at ==> !is_marker_at(packet, size, j)
}

/// Whether the characters `v[from..to]` differ from one another.
fn all_different(v: &Vec<char>, from: usize, to: usize) -> (b: bool)
    requires
        from <= to <= v.len(),
    ensures
        b == v@.subrange(from as int, to as int).no_duplicates(),
{
    let ghost w = v@.subrange(from as int, to as int);
    let mut i: usize = from;
    while i < to
        invariant
            from <= i <= to <= v.len(),
            w == v@.subrange(from as int, to as int),
            forall|a: int, b: int| 0 <= a < i - from && a < b < w.len() ==> w[a] != w[b],
        decreases to - i,
    {
        let mut j: usize = i + 1;
        while j < to
            invariant
                from <= i < j <= to <= v.len(),
                w == v@.subrange(from as int, to as int),
                forall|b: int| i - from < b < j - from ==> w[i - from] != #[trigger] w[b],
            decreases to - j,
        {
            if v[i] == v[j] {
                assert(w[i - from] == w[j - from]);
                return false;
            }
            j += 1;
        }
        i += 1;
    }
    true
}

impl SignalProcessor {
    /// Where the first marker begins; `None` where the packet has none.
    pub closed spec fn position(self) -> Option<usize> {
        self.marker_position
    }

    /// The number of characters of a marker.
    pub closed spec fn size(self) -> usize {
        self.marker_size
    }

    /// Looks for the first run of `marker_size` different characters that is
    /// followed by at least one more character.
    pub fn new(packet: String, marker_size: usize) -> (sp: SignalProcessor)
        requires
            packet.is_ascii(),
        ensures
            sp.size() == marker_size,
            sp.position() matches Some(at) ==> at + marker_size <= usize::MAX,
            match sp.position() {
                Some(at) => is_first_marker(packet@, marker_size as nat, at as int),
                None => forall|j: int| !is_marker_at(packet@, marker_size as nat, j),
            },
    {
        let v = chars_of(packet.as_str());
        let mut i: usize = 0;
        let mut marker_position: Option<usize> = None;
        while marker_size < v.len() && i < v.len() - marker_size
            invariant_except_break
                marker_position is None,
                forall|j: int| 0 <= j < i ==> !is_marker_at(v@, marker_size as nat, j),
            invariant
                v@ == packet@,
            ensures
                marker_position matches Some(at) ==> at + marker_size < v.len(),
                match marker_position {
                    Some(at) => is_first_marker(v@, marker_size as nat, at as int),
                    None => forall|j: int| !is_marker_at(v@, marker_size as nat, j),
                },
            decreases v.len() - i,
        {
            if all_different(&v, i, i + marker_size) {
                marker_position = Some(i);
                break ;
            }
            i += 1
        }
        SignalProcessor { marker_position, marker_size }
    }

    /// The number of characters up to the end of the first marker.
    pub fn get_marker(&self) -> (end: usize)
        requires
            self.position() is Some,
            self.position()->0 + self.size() <= usize::MAX,
        ensures
            end == self.position()->0 + self.size(),
    {
        self.marker_position.unwrap() + self.marker_size
    }
}

/// Both answers can be worked out for `input`: it is plain text and holds
/// a marker of four and one of fourteen characters.
pub open spec fn can_solve(input: Seq<char>) -> bool {
    vstd::utf8::is_ascii_chars(input) && (exists|at: int| is_marker_at(input, 4, at)) && (exists|
        at: int,
    | is_marker_at(input, 14, at))
}

/// `out` is the first answer for `input`.
pub open spec fn is_first_answer(input: Seq<char>, out: Seq<char>) -> bool {
    exists|at: int|
        is_first_marker(input, 4, at) && out == "Packet start: "@ + decimal(
            (at + 4) as nat,
        )
}

/// `out` is the second answer for `input`.
pub open spec fn is_second_answer(input: Seq<char>, out: Seq<char>) -> bool {
    exists|at: int|
        is_first_marker(input, 14, at) && out == "Start of message: "@ + decimal(
            (at + 14) as nat,
        )
}

impl DaySix {
    /// Both answers; `None` where `input` is not plain text or holds no
    /// marker.
    pub fn solve(&self, input: &str) -> (r: Option<(String, String)>)
        ensures
            r is Some <==> can_solve(input@),
            r matches Some(answers) ==> is_first_answer(input@, answers.0@) && is_second_answer(
                input@,
                answers.1@,
            ),
    {
        if !input.is_ascii() {
            return None;
        }
        let short = SignalProcessor::new(input.to_owned(), 4);
        let long = SignalProcessor::new(input.to_owned(), 14);
        match (short.marker_position, long.marker_position) {
            (Some(a), Some(b)) => {
                assert(is_marker_at(input@, 4, a as int));
                assert(is_marker_at(input@, 14, b as int));
                Some((self.part_one(input), self.part_two(input)))
            },
            _ => None,
        }
    }

    /// Reports where the first marker of four characters ends.
    pub fn part_one(&self, input: &str) -> (out: String)
        requires
            input.is_ascii(),
            exists|at: int| is_marker_at(input@, 4, at),
        ensures
            is_first_answer(input@, out@),
    {
        let signal_processor = SignalProcessor::new(input.to_owned(), 4);
        let packet_start = signal_processor.get_marker();
        let out = labelled_number("Packet start: ", packet_start as u64);
        assert(is_first_marker(input@, 4, signal_processor.position()->0 as int));
        out
    }

    /// Reports where the first marker of fourteen characters ends.
    pub fn part_two(&self, input: &str) -> (out: String)
        requires
            input.is_ascii(),
            exists|at: int| is_marker_at(input@, 14, at),
        ensures
            is_second_answer(input@, out@),
    {
        let signal_processor = SignalProcessor::new(input.to_owned(), 14);
        let message_start = signal_processor.get_marker();
        let out = labelled_number("Start of message: ", message_start as u64);
        assert(is_first_marker(input@, 14, signal_processor.position()->0 as int));
        out
    }
}

} // verus!
