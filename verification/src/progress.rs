//! What the application shows while a wallpaper is being applied: the
//! progress of the current run, the status line, and which skin each monitor
//! shows, updated event by event.
use vstd::prelude::*;
use crate::apply::{ApplyEvent, EventView};
use crate::assoc::StrMap;
use crate::text::owned;

verus! {

/// The stage of the current monitor.
#[derive(Clone, Copy, PartialEq, Eq, Structural, Debug)]
pub enum Phase {
    /// A cached render is used.
    Cached,
    /// `done` of `total` frames are rendered.
    Rendering { done: u32, total: u32 },
    /// The wallpaper is being set.
    Applying,
}

/// The progress of a run: the monitor being set (`idx` of `total`), its
/// name and size, and its stage.
pub struct Prog {
    pub skin: String,
    pub total: usize,
    pub idx: usize,
    pub name: String,
    pub w: u32,
    pub h: u32,
    pub phase: Phase,
}

/// A `Prog` with its strings taken as character sequences.
pub struct ProgView {
    pub skin: Seq<char>,
    pub total: usize,
    pub idx: usize,
    pub name: Seq<char>,
    pub w: u32,
    pub h: u32,
    pub phase: Phase,
}

/// The view of an optional progress.
pub open spec fn prog_view(p: Option<Prog>) -> Option<ProgView> {
    match p {
        Some(x) => Some(
            ProgView {
                skin: x.skin@,
                total: x.total,
                idx: x.idx,
                name: x.name@,
                w: x.w,
                h: x.h,
                phase: x.phase,
            },
        ),
        None => None,
    }
}

/// The progress after an event: a new run starts at `Outputs`, a target or
/// stage updates a run under way, `Exit` ends it; other events leave it.
pub open spec fn next_prog(p: Option<ProgView>, e: EventView) -> Option<ProgView> {
    match e {
        EventView::Outputs(n) => Some(
            ProgView {
                skin: seq![],
                total: n,
                idx: 0,
                name: seq![],
                w: 0,
                h: 0,
                phase: Phase::Applying,
            },
        ),
        EventView::Target { name, w, h, i, n } => match p {
            Some(x) => Some(ProgView { name, w, h, idx: i, total: n, phase: Phase::Applying, ..x }),
            None => None,
        },
        EventView::Render { name: _, w, h } => match p {
            Some(x) => Some(ProgView { w, h, phase: Phase::Rendering { done: 0, total: 1 }, ..x }),
            None => None,
        },
        EventView::Cached(_) => match p {
            Some(x) => Some(ProgView { phase: Phase::Cached, ..x }),
            None => None,
        },
        EventView::Progress { done, total } => match p {
            Some(x) => Some(ProgView { phase: Phase::Rendering { done, total }, ..x }),
            None => None,
        },
        EventView::Exit(_) => None,
        _ => p,
    }
}

/// The status line after an event.
pub open spec fn next_status(s: Seq<char>, e: EventView) -> Seq<char> {
    match e {
        EventView::Render { .. } => "rendering…"@,
        EventView::Done { skin, .. } => "live: "@ + skin,
        EventView::Error(msg) => "error: "@ + msg,
        _ => s,
    }
}

/// The monitor assignments after an event: `Applied` records the skin now
/// shown on a monitor.
pub open spec fn next_outputs(m: Map<Seq<char>, Seq<char>>, e: EventView) -> Map<
    Seq<char>,
    Seq<char>,
> {
    match e {
        EventView::Applied { name, skin } => m.insert(name, skin),
        _ => m,
    }
}

/// An `Applied` event sends its monitor to its skin, whatever the monitor
/// showed before, and leaves every other monitor's entry as it was.
pub proof fn lemma_applied_assigns(
    m: Map<Seq<char>, Seq<char>>,
    name: Seq<char>,
    skin: Seq<char>,
    other: Seq<char>,
)
    ensures
        next_outputs(m, EventView::Applied { name, skin }).contains_key(name),
        next_outputs(m, EventView::Applied { name, skin })[name] == skin,
        other != name ==> next_outputs(m, EventView::Applied { name, skin }).contains_key(other)
            == m.contains_key(other),
        other != name && m.contains_key(other) ==> next_outputs(
            m,
            EventView::Applied { name, skin },
        )[other] == m[other],
{
}

/// The status line reads "rendering…" once a render starts, "live: " and
/// the skin once a run is done, "error: " and the message on an error, and
/// stays as it was on every other event.
pub proof fn lemma_status_line(s: Seq<char>, e: EventView)
    ensures
        e is Render ==> next_status(s, e) == "rendering…"@,
        e matches EventView::Done { skin, .. } ==> next_status(s, e) == "live: "@ + skin,
        e matches EventView::Error(msg) ==> next_status(s, e) == "error: "@ + msg,
        !(e is Render || e is Done || e is Error) ==> next_status(s, e) == s,
{
}

/// A run's progress starts afresh at `Outputs` (monitor 0 of the announced
/// count, being applied) and is gone after `Exit`; with no run under way no
/// other event starts one.
pub proof fn lemma_progress_lifecycle(p: Option<ProgView>, e: EventView)
    ensures
        e matches EventView::Outputs(n) ==> (next_prog(p, e) matches Some(x) && x.total == n
            && x.idx == 0 && x.phase == Phase::Applying),
        e is Exit ==> next_prog(p, e) is None,
        p is None && !(e is Outputs) ==> next_prog(p, e) is None,
{
}

/// Events other than `Applied` leave the monitor assignments as they were.
pub proof fn lemma_other_events_keep_outputs(m: Map<Seq<char>, Seq<char>>, e: EventView)
    requires
        !(e is Applied),
    ensures
        next_outputs(m, e) == m,
{
}

/// The progress, status line and monitor assignments of the application.
pub struct ApplyTracker {
    pub prog: Option<Prog>,
    pub status: String,
    pub per_output: StrMap,
}

impl ApplyTracker {
    /// No run under way, status "ready", and the saved assignments.
    pub fn new(per_output: StrMap) -> (r: ApplyTracker)
        ensures
            r.prog is None,
            r.status@ == "ready"@,
            r.per_output@ == per_output@,
    {
        ApplyTracker { prog: None, status: owned("ready"), per_output }
    }

    /// Takes one event of the apply script into account.
    pub fn on_event(&mut self, ev: ApplyEvent)
        ensures
            prog_view(final(self).prog) == next_prog(prog_view(old(self).prog), ev@),
            final(self).status@ == next_status(old(self).status@, ev@),
            final(self).per_output@ == next_outputs(old(self).per_output@, ev@),
            ev@ matches EventView::Applied { name, skin } ==> {
                &&& final(self).per_output@.contains_key(name)
                &&& final(self).per_output@[name] == skin
                &&& forall|k: Seq<char>|
                    k != name ==> (#[trigger] final(self).per_output@.contains_key(k)
                        == old(self).per_output@.contains_key(k) && (old(self).per_output@.contains_key(k)
                        ==> final(self).per_output@[k] == old(self).per_output@[k]))
            },
            !(ev@ is Applied) ==> final(self).per_output@ == old(self).per_output@,
            ev@ is Render ==> final(self).status@ == "rendering…"@,
            ev@ matches EventView::Done { skin, .. } ==> final(self).status@ == "live: "@ + skin,
            ev@ matches EventView::Error(msg) ==> final(self).status@ == "error: "@ + msg,
            !(ev@ is Render || ev@ is Done || ev@ is Error) ==> final(self).status@ == old(
                self,
            ).status@,
            ev@ matches EventView::Outputs(n) ==> (final(self).prog matches Some(p) && p.total == n
                && p.idx == 0 && p.skin@.len() == 0 && p.name@.len() == 0 && p.w == 0 && p.h == 0
                && p.phase == Phase::Applying),
            ev@ is Exit ==> final(self).prog is None,
            old(self).prog is None && !(ev@ is Outputs) ==> final(self).prog is None,
            old(self).prog matches Some(o) ==> (ev@ matches EventView::Target { name, w, h, i, n }
                ==> (final(self).prog matches Some(p) && p.name@ == name && p.w == w && p.h == h
                && p.idx == i && p.total == n && p.phase == Phase::Applying && p.skin@ == o.skin@)),
            old(self).prog matches Some(o) ==> (ev@ matches EventView::Render { w, h, .. } ==> (
            final(self).prog matches Some(p) && p.w == w && p.h == h && p.phase == (Phase::Rendering {
                done: 0,
                total: 1,
            }) && p.idx == o.idx && p.total == o.total && p.name@ == o.name@)),
            old(self).prog matches Some(o) ==> (ev@ is Cached ==> (final(self).prog matches Some(p)
                && p.phase == Phase::Cached && p.idx == o.idx && p.total == o.total && p.w == o.w
                && p.h == o.h)),
            old(self).prog matches Some(o) ==> (ev@ matches EventView::Progress { done, total } ==> (
            final(self).prog matches Some(p) && p.phase == (Phase::Rendering { done, total })
                && p.idx == o.idx && p.total == o.total && p.w == o.w && p.h == o.h)),
    {
        match ev {
            ApplyEvent::Outputs(n) => {
                self.prog = Some(
                    Prog {
                        skin: String::new(),
                        total: n,
                        idx: 0,
                        name: String::new(),
                        w: 0,
                        h: 0,
                        phase: Phase::Applying,
                    },
                );
            },
            ApplyEvent::Target { name, w, h, i, n } => {
                match self.prog.take() {
                    Some(mut p) => {
                        p.name = name;
                        p.w = w;
                        p.h = h;
                        p.idx = i;
                        p.total = n;
                        p.phase = Phase::Applying;
                        self.prog = Some(p);
                    },
                    None => {},
                }
            },
            ApplyEvent::Render { name: _, w, h } => {
                match self.prog.take() {
                    Some(mut p) => {
                        p.w = w;
                        p.h = h;
                        p.phase = Phase::Rendering { done: 0, total: 1 };
                        self.prog = Some(p);
                    },
                    None => {},
                }
                self.status = owned("rendering…");
            },
            ApplyEvent::Cached(_) => {
                match self.prog.take() {
                    Some(mut p) => {
                        p.phase = Phase::Cached;
                        self.prog = Some(p);
                    },
                    None => {},
                }
            },
            ApplyEvent::Progress { done, total } => {
                match self.prog.take() {
                    Some(mut p) => {
                        p.phase = Phase::Rendering { done, total };
                        self.prog = Some(p);
                    },
                    None => {},
                }
            },
            ApplyEvent::Applied { name, skin } => {
                self.per_output.insert(name, skin);
            },
            ApplyEvent::Done { skin, n: _ } => {
                let mut s = owned("live: ");
                s.append(skin.as_str());
                self.status = s;
            },
            ApplyEvent::Error(e) => {
                let mut s = owned("error: ");
                s.append(e.as_str());
                self.status = s;
            },
            ApplyEvent::Exit(_) => {
                self.prog = None;
            },
        }
    }
}

} // verus!
