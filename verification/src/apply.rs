//! The apply pipeline's protocol: the progress lines that the apply script
//! prints, their parser, and the bookkeeping of whether a run is under way
//! (the process itself is started and read by the application).
use vstd::prelude::*;
use crate::text::{
    split_words, str_equal, owned, join_from, words, views, join, usize_value, u32_value,
    parse_usize, parse_u32, is_word, lemma_respaced_words, lemma_words_of_joined,
};
use crate::commands::{decimal_digits, lemma_decimal_is_word, lemma_decimal_roundtrip};

verus! {

/// One progress report of the apply script.
#[derive(Debug)]
pub enum ApplyEvent {
    /// The number of monitors about to be set.
    Outputs(usize),
    /// Monitor `i` of `n` (named `name`, `w`×`h`) is being set.
    Target { name: String, w: u32, h: u32, i: usize, n: usize },
    /// A cached render is used for the monitor.
    Cached(String),
    /// A render for the monitor starts.
    Render { name: String, w: u32, h: u32 },
    /// `done` of `total` frames are rendered.
    Progress { done: u32, total: u32 },
    /// Monitor `name` now shows `skin`.
    Applied { name: String, skin: String },
    /// `skin` is live on `n` monitors.
    Done { skin: String, n: usize },
    /// The script reported an error.
    Error(String),
    /// The script ended, successfully or not.
    Exit(bool),
}

/// An `ApplyEvent` with its strings taken as character sequences.
pub enum EventView {
    Outputs(usize),
    Target { name: Seq<char>, w: u32, h: u32, i: usize, n: usize },
    Cached(Seq<char>),
    Render { name: Seq<char>, w: u32, h: u32 },
    Progress { done: u32, total: u32 },
    Applied { name: Seq<char>, skin: Seq<char> },
    Done { skin: Seq<char>, n: usize },
    Error(Seq<char>),
    Exit(bool),
}

impl View for ApplyEvent {
    type V = EventView;

    open spec fn view(&self) -> EventView {
        match self {
            ApplyEvent::Outputs(n) => EventView::Outputs(*n),
            ApplyEvent::Target { name, w, h, i, n } => EventView::Target {
                name: name@,
                w: *w,
                h: *h,
                i: *i,
                n: *n,
            },
            ApplyEvent::Cached(s) => EventView::Cached(s@),
            ApplyEvent::Render { name, w, h } => EventView::Render { name: name@, w: *w, h: *h },
            ApplyEvent::Progress { done, total } => EventView::Progress {
                done: *done,
                total: *total,
            },
            ApplyEvent::Applied { name, skin } => EventView::Applied { name: name@, skin: skin@ },
            ApplyEvent::Done { skin, n } => EventView::Done { skin: skin@, n: *n },
            ApplyEvent::Error(s) => EventView::Error(s@),
            ApplyEvent::Exit(ok) => EventView::Exit(*ok),
        }
    }
}

/// The view of an optional event.
pub open spec fn opt_event_view(e: Option<ApplyEvent>) -> Option<EventView> {
    match e {
        Some(x) => Some(x@),
        None => None,
    }
}

/// The event that a line's words stand for: the first word names the event,
/// the next ones are its fields; a missing or malformed field, or an unknown
/// first word, gives none. Extra words are ignored, except after `ERR`,
/// whose message is the rest of the line joined by single spaces.
pub open spec fn event_of_words(w: Seq<Seq<char>>) -> Option<EventView> {
    if w.len() == 0 {
        None
    } else if w[0] == "OUTPUTS"@ {
        if w.len() > 1 {
            match usize_value(w[1]) {
                Some(n) => Some(EventView::Outputs(n)),
                None => None,
            }
        } else {
            None
        }
    } else if w[0] == "TARGET"@ {
        if w.len() > 5 {
            match (u32_value(w[2]), u32_value(w[3]), usize_value(w[4]), usize_value(w[5])) {
                (Some(ww), Some(hh), Some(i), Some(n)) => Some(
                    EventView::Target { name: w[1], w: ww, h: hh, i, n },
                ),
                _ => None,
            }
        } else {
            None
        }
    } else if w[0] == "CACHED"@ {
        if w.len() > 1 {
            Some(EventView::Cached(w[1]))
        } else {
            None
        }
    } else if w[0] == "RENDER"@ {
        if w.len() > 3 {
            match (u32_value(w[2]), u32_value(w[3])) {
                (Some(ww), Some(hh)) => Some(EventView::Render { name: w[1], w: ww, h: hh }),
                _ => None,
            }
        } else {
            None
        }
    } else if w[0] == "PROGRESS"@ {
        if w.len() > 2 {
            match (u32_value(w[1]), u32_value(w[2])) {
                (Some(d), Some(t)) => Some(EventView::Progress { done: d, total: t }),
                _ => None,
            }
        } else {
            None
        }
    } else if w[0] == "APPLIED"@ {
        if w.len() > 2 {
            Some(EventView::Applied { name: w[1], skin: w[2] })
        } else {
            None
        }
    } else if w[0] == "DONE"@ {
        if w.len() > 2 {
            match usize_value(w[2]) {
                Some(n) => Some(EventView::Done { skin: w[1], n }),
                None => None,
            }
        } else {
            None
        }
    } else if w[0] == "ERR"@ {
        Some(EventView::Error(join(w.skip(1), " "@)))
    } else {
        None
    }
}

/// Reads one line of the apply script's output.
pub fn parse(l: &str) -> (r: Option<ApplyEvent>)
    ensures
        opt_event_view(r) == event_of_words(words(l@)),
{
    let p = split_words(l);
    let ghost w = views(p@);
    assert(w == words(l@));
    if p.len() == 0 {
        return None;
    }
    assert(w[0] == p@[0]@);
    let head = p[0].as_str();
    if str_equal(head, "OUTPUTS") {
        if p.len() > 1 {
            assert(w[1] == p@[1]@);
            match parse_usize(p[1].as_str()) {
                Some(n) => Some(ApplyEvent::Outputs(n)),
                None => None,
            }
        } else {
            None
        }
    } else if str_equal(head, "TARGET") {
        if p.len() > 5 {
            assert(w[1] == p@[1]@ && w[2] == p@[2]@ && w[3] == p@[3]@);
            assert(w[4] == p@[4]@ && w[5] == p@[5]@);
            let ww = parse_u32(p[2].as_str());
            let hh = parse_u32(p[3].as_str());
            let i = parse_usize(p[4].as_str());
            let n = parse_usize(p[5].as_str());
            match (ww, hh, i, n) {
                (Some(ww), Some(hh), Some(i), Some(n)) => Some(
                    ApplyEvent::Target { name: owned(p[1].as_str()), w: ww, h: hh, i, n },
                ),
                _ => None,
            }
        } else {
            None
        }
    } else if str_equal(head, "CACHED") {
        if p.len() > 1 {
            assert(w[1] == p@[1]@);
            Some(ApplyEvent::Cached(owned(p[1].as_str())))
        } else {
            None
        }
    } else if str_equal(head, "RENDER") {
        if p.len() > 3 {
            assert(w[1] == p@[1]@ && w[2] == p@[2]@ && w[3] == p@[3]@);
            let ww = parse_u32(p[2].as_str());
            let hh = parse_u32(p[3].as_str());
            match (ww, hh) {
                (Some(ww), Some(hh)) => Some(
                    ApplyEvent::Render { name: owned(p[1].as_str()), w: ww, h: hh },
                ),
                _ => None,
            }
        } else {
            None
        }
    } else if str_equal(head, "PROGRESS") {
        if p.len() > 2 {
            assert(w[1] == p@[1]@ && w[2] == p@[2]@);
            let d = parse_u32(p[1].as_str());
            let t = parse_u32(p[2].as_str());
            match (d, t) {
                (Some(d), Some(t)) => Some(ApplyEvent::Progress { done: d, total: t }),
                _ => None,
            }
        } else {
            None
        }
    } else if str_equal(head, "APPLIED") {
        if p.len() > 2 {
            assert(w[1] == p@[1]@ && w[2] == p@[2]@);
            Some(ApplyEvent::Applied { name: owned(p[1].as_str()), skin: owned(p[2].as_str()) })
        } else {
            None
        }
    } else if str_equal(head, "DONE") {
        if p.len() > 2 {
            assert(w[1] == p@[1]@ && w[2] == p@[2]@);
            match parse_usize(p[2].as_str()) {
                Some(n) => Some(ApplyEvent::Done { skin: owned(p[1].as_str()), n }),
                None => None,
            }
        } else {
            None
        }
    } else if str_equal(head, "ERR") {
        Some(ApplyEvent::Error(join_from(&p, 1, " ")))
    } else {
        None
    }
}

/// The arguments handed to the apply script to set `skin` on every monitor
/// (no output) or on one.
pub open spec fn apply_args(skin: Seq<char>, output: Option<Seq<char>>) -> Seq<Seq<char>> {
    match output {
        Some(o) => seq![skin, "--output"@, o],
        None => seq![skin],
    }
}

/// The view of an optional string slice.
pub open spec fn opt_str_view(o: Option<&str>) -> Option<Seq<char>> {
    match o {
        Some(s) => Some(s@),
        None => None,
    }
}

/// Some event of the list reports that the script ended.
pub open spec fn has_exit(evs: Seq<ApplyEvent>) -> bool {
    exists|i: int| 0 <= i < evs.len() && evs[i] is Exit
}

/// Whether an apply run is under way; a new run is refused while one is.
pub struct Applier {
    pub running: bool,
}

impl Applier {
    /// An idle applier.
    pub fn new() -> (r: Applier)
        ensures
            !r.running,
    {
        Applier { running: false }
    }

    /// Starts setting `skin` on all monitors (`output` None) or on one: the
    /// script arguments to run, or `None` when a run is already under way.
    /// Either way a run is under way afterwards.
    pub fn apply(&mut self, skin: &str, output: Option<&str>) -> (r: Option<Vec<String>>)
        ensures
            final(self).running,
            old(self).running ==> r is None,
            !old(self).running ==> (r matches Some(args) && views(args@) == apply_args(
                skin@,
                opt_str_view(output),
            )),
    {
        let mut args: Vec<String> = Vec::new();
        args.push(owned(skin));
        match output {
            Some(o) => {
                args.push(owned("--output"));
                args.push(owned(o));
            },
            None => {},
        }
        assert(views(args@) =~= apply_args(skin@, opt_str_view(output)));
        self.run(args)
    }

    /// Starts re-applying every monitor's saved skin: the script arguments,
    /// or `None` when a run is already under way.
    pub fn refresh(&mut self) -> (r: Option<Vec<String>>)
        ensures
            final(self).running,
            old(self).running ==> r is None,
            !old(self).running ==> (r matches Some(args) && views(args@) == seq!["--refresh"@]),
    {
        let mut args: Vec<String> = Vec::new();
        args.push(owned("--refresh"));
        assert(views(args@) =~= seq!["--refresh"@]);
        self.run(args)
    }

    fn run(&mut self, args: Vec<String>) -> (r: Option<Vec<String>>)
        ensures
            final(self).running,
            old(self).running ==> r is None,
            !old(self).running ==> r == Some(args),
    {
        if self.running {
            return None;
        }
        self.running = true;
        Some(args)
    }

    /// Takes the events received from the script since the last call and
    /// hands them on; the run is over once one of them reports the exit.
    pub fn poll(&mut self, received: Vec<ApplyEvent>) -> (r: Vec<ApplyEvent>)
        ensures
            r@ == received@,
            final(self).running == (old(self).running && !has_exit(received@)),
    {
        let mut i: usize = 0;
        while i < received.len()
            invariant
                i <= received.len(),
                self.running == (old(self).running && !exists|j: int|
                    0 <= j < i && received@[j] is Exit),
            decreases received.len() - i,
        {
            if let ApplyEvent::Exit(_) = &received[i] {
                self.running = false;
            }
            i += 1;
        }
        received
    }
}

/// Re-spacing a line (its words joined by single spaces) does not change
/// the event it stands for.
pub proof fn lemma_parse_ignores_spacing(l: Seq<char>)
    ensures
        event_of_words(words(join(words(l), " "@))) == event_of_words(words(l)),
{
    lemma_respaced_words(l);
}

proof fn lemma_keywords_differ()
    ensures
        is_word("OUTPUTS"@),
        is_word("PROGRESS"@),
        is_word("APPLIED"@),
        is_word("DONE"@),
        "PROGRESS"@ != "OUTPUTS"@,
        "PROGRESS"@ != "TARGET"@,
        "PROGRESS"@ != "CACHED"@,
        "PROGRESS"@ != "RENDER"@,
        "APPLIED"@ != "OUTPUTS"@,
        "APPLIED"@ != "TARGET"@,
        "APPLIED"@ != "CACHED"@,
        "APPLIED"@ != "RENDER"@,
        "APPLIED"@ != "PROGRESS"@,
        "DONE"@ != "OUTPUTS"@,
        "DONE"@ != "TARGET"@,
        "DONE"@ != "CACHED"@,
        "DONE"@ != "RENDER"@,
        "DONE"@ != "PROGRESS"@,
        "DONE"@ != "APPLIED"@,
{
    reveal_strlit("OUTPUTS");
    reveal_strlit("TARGET");
    reveal_strlit("CACHED");
    reveal_strlit("RENDER");
    reveal_strlit("PROGRESS");
    reveal_strlit("APPLIED");
    reveal_strlit("DONE");
    assert("PROGRESS"@[0] != "OUTPUTS"@[0]);
    assert("PROGRESS"@[0] != "TARGET"@[0]);
    assert("PROGRESS"@[0] != "CACHED"@[0]);
    assert("PROGRESS"@[0] != "RENDER"@[0]);
    assert("APPLIED"@[0] != "OUTPUTS"@[0]);
    assert("APPLIED"@[0] != "TARGET"@[0]);
    assert("APPLIED"@[0] != "CACHED"@[0]);
    assert("APPLIED"@[0] != "RENDER"@[0]);
    assert("APPLIED"@[0] != "PROGRESS"@[0]);
    assert("DONE"@[0] != "OUTPUTS"@[0]);
    assert("DONE"@[0] != "TARGET"@[0]);
    assert("DONE"@[0] != "CACHED"@[0]);
    assert("DONE"@[0] != "RENDER"@[0]);
    assert("DONE"@[0] != "PROGRESS"@[0]);
    assert("DONE"@[0] != "APPLIED"@[0]);
}

/// The lines the apply script prints read back as the events they report:
/// `OUTPUTS n`, `PROGRESS done total`, `APPLIED name skin` and `DONE skin n`,
/// with the numbers in decimal and names that are single words.
pub proof fn lemma_printed_lines(n: usize, done: u32, total: u32, name: Seq<char>, skin: Seq<char>)
    requires
        is_word(name),
        is_word(skin),
    ensures
        event_of_words(words(join(seq!["OUTPUTS"@, decimal_digits(n as nat)], " "@))) == Some(
            EventView::Outputs(n),
        ),
        event_of_words(
            words(
                join(
                    seq!["PROGRESS"@, decimal_digits(done as nat), decimal_digits(total as nat)],
                    " "@,
                ),
            ),
        ) == Some(EventView::Progress { done, total }),
        event_of_words(words(join(seq!["APPLIED"@, name, skin], " "@))) == Some(
            EventView::Applied { name, skin },
        ),
        event_of_words(words(join(seq!["DONE"@, skin, decimal_digits(n as nat)], " "@))) == Some(
            EventView::Done { skin, n },
        ),
{
    lemma_keywords_differ();
    lemma_decimal_is_word(n as nat);
    lemma_decimal_is_word(done as nat);
    lemma_decimal_is_word(total as nat);
    lemma_decimal_roundtrip(n as nat);
    lemma_decimal_roundtrip(done as nat);
    lemma_decimal_roundtrip(total as nat);
    let w1 = seq!["OUTPUTS"@, decimal_digits(n as nat)];
    assert forall|k: int| 0 <= k < w1.len() implies is_word(#[trigger] w1[k]) by {}
    lemma_words_of_joined(w1);
    let w2 = seq!["PROGRESS"@, decimal_digits(done as nat), decimal_digits(total as nat)];
    assert forall|k: int| 0 <= k < w2.len() implies is_word(#[trigger] w2[k]) by {}
    lemma_words_of_joined(w2);
    let w3 = seq!["APPLIED"@, name, skin];
    assert forall|k: int| 0 <= k < w3.len() implies is_word(#[trigger] w3[k]) by {}
    lemma_words_of_joined(w3);
    let w4 = seq!["DONE"@, skin, decimal_digits(n as nat)];
    assert forall|k: int| 0 <= k < w4.len() implies is_word(#[trigger] w4[k]) by {}
    lemma_words_of_joined(w4);
}

/// Whether a run is still under way after polls that received `batches`, one
/// batch per poll, starting from `running` (each poll's contract in turn).
pub open spec fn running_after(running: bool, batches: Seq<Seq<ApplyEvent>>) -> bool
    decreases batches.len(),
{
    if batches.len() == 0 {
        running
    } else {
        running_after(running, batches.drop_last()) && !has_exit(batches.last())
    }
}

/// A run stays under way over any number of polls until a poll receives the
/// script's exit, and is over from then on.
pub proof fn lemma_run_ends_at_exit(running: bool, batches: Seq<Seq<ApplyEvent>>)
    ensures
        running_after(running, batches) == (running && forall|i: int|
            0 <= i < batches.len() ==> !has_exit(#[trigger] batches[i])),
    decreases batches.len(),
{
    if batches.len() > 0 {
        lemma_run_ends_at_exit(running, batches.drop_last());
        let b = batches.drop_last();
        if running_after(running, batches) {
            assert forall|i: int| 0 <= i < batches.len() implies !has_exit(#[trigger] batches[i]) by {
                if i < b.len() {
                    assert(batches[i] == b[i]);
                }
            }
        } else if running && forall|i: int| 0 <= i < batches.len() ==> !has_exit(#[trigger] batches[i]) {
            assert(!has_exit(batches[batches.len() - 1]));
            assert forall|i: int| 0 <= i < b.len() implies !has_exit(#[trigger] b[i]) by {
                assert(batches[i] == b[i]);
            }
        }
    }
}

} // verus!
