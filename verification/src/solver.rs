//! The CAPTCHA solver: a state machine over one resolution attempt.
//!
//! The solver owns every decision of the protocol; the network is driven
//! from outside. Each call of [`Solver::step`] consumes the outcome of the
//! previous network action (an [`Event`]) and answers with the next
//! [`Action`]. A rejected guess burns the challenge and restarts the attempt
//! from the beginning, bounded by the retry budget; the answer cache is
//! consulted for the guess and written only after an accepted cache-miss
//! guess.

use vstd::prelude::*;

use crate::cache::{lookup_spec, record_spec, AnswerCache};
use crate::challenge::{rejected_spec, Captcha};
use crate::challenge::is_rejected;
use crate::cookie::{fold_headers, jar_str, CookieJar};
use crate::error::Error;
use crate::similarity::{best_match, comparable, png_info};

verus! {

/// The outcome of one network action, handed back to the solver.
pub enum Event {
    /// The session-establishing response: its status and its `Set-Cookie`
    /// header values.
    Session { success: bool, headers: Vec<String> },
    /// The session-establishing call failed in transport.
    SessionFailed { error: Error },
    /// The challenge-issuing response, already parsed.
    Challenge { captcha: Captcha },
    /// The challenge-issuing call failed.
    ChallengeFailed { error: Error },
    /// One candidate image's bytes, in candidate order.
    Image { bytes: Vec<u8> },
    /// A candidate-image call failed.
    ImageFailed { error: Error },
    /// The verification response body.
    Verdict { body: String },
    /// The verification call failed.
    VerdictFailed { error: Error },
}

/// What the caller is to do next.
pub enum Action {
    /// Establish the session for the content unit.
    FetchSession,
    /// Fetch a fresh challenge.
    FetchChallenge,
    /// Fetch the image of the named candidate.
    FetchImage { session: String, image_id: String },
    /// Submit the named candidate as the guess, with the session's
    /// serialised cookies.
    Submit { session: String, image_id: String, cookie: String },
    /// The attempt succeeded with this unlocked payload.
    Done { payload: String },
    /// The attempt failed.
    Fail { error: Error },
}

/// Where the attempt stands.
pub enum Phase {
    /// No session yet: awaiting the session response.
    Start,
    /// Session established: awaiting the challenge.
    HaveSession { jar: CookieJar },
    /// Challenge acquired: fetching candidate images.
    Fetching { jar: CookieJar, captcha: Captcha, images: Vec<Vec<u8>> },
    /// A guess was submitted: awaiting the verdict.
    Submitted { question: String, first_image: Vec<u8>, from_cache: bool },
    /// The attempt ended, in success or failure.
    Finished,
}

/// The solver for one content unit and episode.
pub struct Solver {
    pub series_id: u32,
    pub episode: u32,
    pub attempts_left: u32,
    pub phase: Phase,
}

/// Two challenges with the same content.
pub open spec fn captcha_equiv(a: Captcha, b: Captcha) -> bool {
    &&& a.session@ == b.session@
    &&& a.id_prefix@ == b.id_prefix@
    &&& a.question@ == b.question@
    &&& a.images.deep_view() == b.images.deep_view()
}

/// Two phases with the same content.
pub open spec fn phase_equiv(a: Phase, b: Phase) -> bool {
    match (a, b) {
        (Phase::Start, Phase::Start) => true,
        (Phase::HaveSession { jar: j1 }, Phase::HaveSession { jar: j2 }) => j1@ == j2@,
        (
            Phase::Fetching { jar: j1, captcha: c1, images: i1 },
            Phase::Fetching { jar: j2, captcha: c2, images: i2 },
        ) => j1@ == j2@ && captcha_equiv(c1, c2) && i1.deep_view() == i2.deep_view(),
        (
            Phase::Submitted { question: q1, first_image: f1, from_cache: b1 },
            Phase::Submitted { question: q2, first_image: f2, from_cache: b2 },
        ) => q1@ == q2@ && f1@ == f2@ && b1 == b2,
        (Phase::Finished, Phase::Finished) => true,
        _ => false,
    }
}

/// A step that ends the attempt in failure: terminal phase, cache untouched.
pub open spec fn failed_step(
    pre: Solver,
    cpre: Seq<(Seq<char>, Seq<u8>)>,
    post: Solver,
    cpost: Seq<(Seq<char>, Seq<u8>)>,
    a: Action,
) -> bool {
    &&& post.phase is Finished
    &&& post.attempts_left == pre.attempts_left
    &&& cpost == cpre
    &&& a is Fail
}

/// What one step of the solver does: how the next phase, the cache and the
/// answered action follow from the current phase, the cache and the event.
/// Everything is determined by the views of the inputs, except which
/// candidate a cache-guided guess submits — that choice follows the
/// perceptual distances, which the specification does not model; what is
/// pinned is that a candidate byte-identical to the cached reference is
/// never beaten by a later candidate.
pub open spec fn step_rel(
    pre: Solver,
    cpre: Seq<(Seq<char>, Seq<u8>)>,
    ev: Event,
    post: Solver,
    cpost: Seq<(Seq<char>, Seq<u8>)>,
    a: Action,
) -> bool {
    &&& post.series_id == pre.series_id
    &&& post.episode == pre.episode
    &&& match pre.phase {
        Phase::Start => match ev {
            Event::Session { success, headers } => {
                if !success {
                    &&& failed_step(pre, cpre, post, cpost, a)
                    &&& (a matches Action::Fail { error } && error is Protocol)
                } else {
                    match fold_headers(headers.deep_view()) {
                        Some(jar) => {
                            &&& post.attempts_left == pre.attempts_left
                            &&& cpost == cpre
                            &&& (post.phase matches Phase::HaveSession { jar: j } && j@ == jar)
                            &&& a is FetchChallenge
                        },
                        None => {
                            &&& failed_step(pre, cpre, post, cpost, a)
                            &&& (a matches Action::Fail { error } && error is Protocol)
                        },
                    }
                }
            },
            Event::SessionFailed { error } => {
                &&& failed_step(pre, cpre, post, cpost, a)
                &&& (a matches Action::Fail { error: e } && e == error)
            },
            _ => {
                &&& failed_step(pre, cpre, post, cpost, a)
                &&& (a matches Action::Fail { error } && error is Protocol)
            },
        },
        Phase::HaveSession { jar } => match ev {
            Event::Challenge { captcha } => {
                if captcha.images@.len() >= 1 {
                    &&& post.attempts_left == pre.attempts_left
                    &&& cpost == cpre
                    &&& (post.phase matches Phase::Fetching { jar: j2, captcha: c2, images }
                        && j2@ == jar@ && captcha_equiv(c2, captcha) && images.deep_view()
                        == Seq::<Seq<u8>>::empty())
                    &&& (a matches Action::FetchImage { session, image_id } && session@
                        == captcha.session@ && image_id@ == captcha.images.deep_view()[0])
                } else {
                    &&& failed_step(pre, cpre, post, cpost, a)
                    &&& (a matches Action::Fail { error } && error is Protocol)
                }
            },
            Event::ChallengeFailed { error } => {
                &&& failed_step(pre, cpre, post, cpost, a)
                &&& (a matches Action::Fail { error: e } && e == error)
            },
            _ => {
                &&& failed_step(pre, cpre, post, cpost, a)
                &&& (a matches Action::Fail { error } && error is Protocol)
            },
        },
        Phase::Fetching { jar, captcha, images } => match ev {
            Event::Image { bytes } => {
                let imgs = images.deep_view().push(bytes@);
                let ids = captcha.images.deep_view();
                if imgs.len() < ids.len() {
                    &&& post.attempts_left == pre.attempts_left
                    &&& cpost == cpre
                    &&& (post.phase matches Phase::Fetching { jar: j2, captcha: c2, images: i2 }
                        && j2@ == jar@ && captcha_equiv(c2, captcha) && i2.deep_view() == imgs)
                    &&& (a matches Action::FetchImage { session, image_id } && session@
                        == captcha.session@ && image_id@ == ids[imgs.len() as int])
                } else {
                    match lookup_spec(cpre, captcha.question@) {
                        None => {
                            &&& post.attempts_left == pre.attempts_left
                            &&& cpost == cpre
                            &&& (post.phase matches Phase::Submitted {
                                question,
                                first_image,
                                from_cache,
                            } && question@ == captcha.question@ && first_image@ == imgs[0]
                                && from_cache == false)
                            &&& (a matches Action::Submit { session, image_id, cookie }
                                && session@ == captcha.session@ && image_id@ == ids[0]
                                && cookie@ == jar_str(jar@))
                        },
                        Some(reference) => {
                            if png_info(reference) is Some && (forall|i: int|
                                0 <= i < imgs.len() ==> comparable(reference, imgs[i])) {
                                &&& post.attempts_left == pre.attempts_left
                                &&& cpost == cpre
                                &&& (post.phase matches Phase::Submitted {
                                    question,
                                    first_image,
                                    from_cache,
                                } && question@ == captcha.question@ && first_image@ == imgs[0]
                                    && from_cache == true)
                                &&& (exists|g: int|
                                    0 <= g < ids.len() && (forall|i: int|
                                        0 <= i < imgs.len() && (#[trigger] imgs[i]) == reference
                                            ==> g <= i) && (
                                    a matches Action::Submit { session, image_id, cookie }
                                        && session@ == captcha.session@ && image_id@
                                        == #[trigger] ids[g] && cookie@ == jar_str(jar@)))
                            } else {
                                &&& failed_step(pre, cpre, post, cpost, a)
                                &&& (a matches Action::Fail { error } && error is Decode)
                            }
                        },
                    }
                }
            },
            Event::ImageFailed { error } => {
                &&& failed_step(pre, cpre, post, cpost, a)
                &&& (a matches Action::Fail { error: e } && e == error)
            },
            _ => {
                &&& failed_step(pre, cpre, post, cpost, a)
                &&& (a matches Action::Fail { error } && error is Protocol)
            },
        },
        Phase::Submitted { question, first_image, from_cache } => match ev {
            Event::Verdict { body } => {
                if rejected_spec(body@) {
                    if pre.attempts_left <= 1 {
                        &&& post.phase is Finished
                        &&& post.attempts_left == 0
                        &&& cpost == cpre
                        &&& (a matches Action::Fail { error } && error is Exhausted)
                    } else {
                        &&& post.phase is Start
                        &&& post.attempts_left == pre.attempts_left - 1
                        &&& cpost == cpre
                        &&& a is FetchSession
                    }
                } else {
                    &&& post.phase is Finished
                    &&& post.attempts_left == pre.attempts_left
                    &&& cpost == (if from_cache {
                        cpre
                    } else {
                        record_spec(cpre, question@, first_image@)
                    })
                    &&& (a matches Action::Done { payload } && payload@ == body@)
                }
            },
            Event::VerdictFailed { error } => {
                &&& failed_step(pre, cpre, post, cpost, a)
                &&& (a matches Action::Fail { error: e } && e == error)
            },
            _ => {
                &&& failed_step(pre, cpre, post, cpost, a)
                &&& (a matches Action::Fail { error } && error is Protocol)
            },
        },
        Phase::Finished => {
            &&& failed_step(pre, cpre, post, cpost, a)
            &&& (a matches Action::Fail { error } && error is Protocol)
        },
    }
}

/// True of a verdict event whose body carries the rejection sentinel.
pub open spec fn is_rejection(ev: Event) -> bool {
    ev matches Event::Verdict { body } && rejected_spec(body@)
}

/// No event of the sequence is a rejected verdict.
pub open spec fn no_rejection(evs: Seq<Event>) -> bool {
    forall|i: int| 0 <= i < evs.len() ==> !is_rejection(#[trigger] evs[i])
}

/// The solver after a sequence of events, one step per event.
pub open spec fn run_rel(
    s0: Solver,
    c0: Seq<(Seq<char>, Seq<u8>)>,
    evs: Seq<Event>,
    s1: Solver,
    c1: Seq<(Seq<char>, Seq<u8>)>,
) -> bool
    decreases evs.len(),
{
    if evs.len() == 0 {
        s1 == s0 && c1 == c0
    } else {
        exists|sm: Solver, cm: Seq<(Seq<char>, Seq<u8>)>, a: Action|
            step_rel(s0, c0, evs[0], sm, cm, a) && run_rel(sm, cm, evs.drop_first(), s1, c1)
    }
}

/// A rejection with budget left restarts the attempt cleanly: the solver
/// returns to the phase of a fresh solver, the cache is untouched, only the
/// budget shrinks, and the next action starts the cycle over.
pub proof fn lemma_rejection_restarts_cleanly(
    pre: Solver,
    cpre: Seq<(Seq<char>, Seq<u8>)>,
    ev: Event,
    post: Solver,
    cpost: Seq<(Seq<char>, Seq<u8>)>,
    a: Action,
)
    requires
        step_rel(pre, cpre, ev, post, cpost, a),
        pre.phase is Submitted,
        is_rejection(ev),
        pre.attempts_left >= 2,
    ensures
        post.phase is Start,
        cpost == cpre,
        post.attempts_left == pre.attempts_left - 1,
        a is FetchSession,
{
}

/// One step treats two solvers with the same phase and the same cache alike:
/// the next phases and caches agree, and so does success, with the same
/// unlocked payload. Only the retry budget may differ, which a rejected
/// verdict would consult, so that event is left out.
pub proof fn lemma_step_unaffected_by_history(
    p1: Solver,
    p2: Solver,
    c: Seq<(Seq<char>, Seq<u8>)>,
    ev: Event,
    q1: Solver,
    d1: Seq<(Seq<char>, Seq<u8>)>,
    a1: Action,
    q2: Solver,
    d2: Seq<(Seq<char>, Seq<u8>)>,
    a2: Action,
)
    requires
        step_rel(p1, c, ev, q1, d1, a1),
        step_rel(p2, c, ev, q2, d2, a2),
        phase_equiv(p1.phase, p2.phase),
        !is_rejection(ev),
    ensures
        phase_equiv(q1.phase, q2.phase),
        d1 == d2,
        a1 is Done <==> a2 is Done,
        (a1 is Done && a2 is Done) ==> (a1 matches Action::Done { payload: b1 }
            && a2 matches Action::Done { payload: b2 } && b1@ == b2@),
{
}

/// A whole accepting attempt treats two solvers with the same phase and the
/// same cache alike: after a rejection restarted the solver cleanly, the
/// following attempt ends in the same phase and leaves the same cache as the
/// same attempt run from a fresh solver — no state leaks from the burned
/// attempt.
pub proof fn lemma_run_unaffected_by_history(
    s1: Solver,
    s2: Solver,
    c: Seq<(Seq<char>, Seq<u8>)>,
    evs: Seq<Event>,
    t1: Solver,
    d1: Seq<(Seq<char>, Seq<u8>)>,
    t2: Solver,
    d2: Seq<(Seq<char>, Seq<u8>)>,
)
    requires
        run_rel(s1, c, evs, t1, d1),
        run_rel(s2, c, evs, t2, d2),
        phase_equiv(s1.phase, s2.phase),
        no_rejection(evs),
    ensures
        phase_equiv(t1.phase, t2.phase),
        d1 == d2,
    decreases evs.len(),
{
    if evs.len() == 0 {
    } else {
        let (m1, cm1, a1): (Solver, Seq<(Seq<char>, Seq<u8>)>, Action) = choose|
            m1: Solver,
            cm1: Seq<(Seq<char>, Seq<u8>)>,
            a1: Action,
        |
            step_rel(s1, c, evs[0], m1, cm1, a1) && run_rel(m1, cm1, evs.drop_first(), t1, d1);
        let (m2, cm2, a2): (Solver, Seq<(Seq<char>, Seq<u8>)>, Action) = choose|
            m2: Solver,
            cm2: Seq<(Seq<char>, Seq<u8>)>,
            a2: Action,
        |
            step_rel(s2, c, evs[0], m2, cm2, a2) && run_rel(m2, cm2, evs.drop_first(), t2, d2);
        assert(!is_rejection(evs[0]));
        lemma_step_unaffected_by_history(s1, s2, c, evs[0], m1, cm1, a1, m2, cm2, a2);
        assert(no_rejection(evs.drop_first())) by {
            assert(forall|i: int|
                0 <= i < evs.drop_first().len() ==> evs.drop_first()[i] == evs[i + 1]);
        }
        lemma_run_unaffected_by_history(m1, m2, cm1, evs.drop_first(), t1, d1, t2, d2);
    }
}

impl Solver {
    /// While candidate images are being fetched, fewer have arrived than the
    /// challenge names.
    pub open spec fn wf(&self) -> bool {
        match self.phase {
            Phase::Fetching { captcha, images, .. } => images@.len() < captcha.images@.len(),
            _ => true,
        }
    }

    /// A fresh solver for one episode of one content unit, with a retry
    /// budget. Its first action is to establish the session.
    pub fn new(series_id: u32, episode: u32, max_attempts: u32) -> (r: Solver)
        ensures
            r.series_id == series_id,
            r.episode == episode,
            r.attempts_left == max_attempts,
            r.phase is Start,
            r.wf(),
    {
        Solver { series_id, episode, attempts_left: max_attempts, phase: Phase::Start }
    }

    /// Consumes the outcome of the previous network action and decides the
    /// next one, as [`step_rel`] states.
    pub fn step(&mut self, cache: &mut AnswerCache, event: Event) -> (a: Action)
        requires
            old(self).wf(),
            old(cache).wf(),
        ensures
            step_rel(*old(self), old(cache)@, event, *final(self), final(cache)@, a),
            final(self).wf(),
            final(cache).wf(),
    {
        let mut ph = Phase::Finished;
        core::mem::swap(&mut self.phase, &mut ph);
        match ph {
            Phase::Start => match event {
                Event::Session { success, headers } => {
                    if !success {
                        self.phase = Phase::Finished;
                        Action::Fail {
                            error: Error::Protocol("failed to fetch cookies".to_owned()),
                        }
                    } else {
                        match CookieJar::parse(&headers) {
                            Ok(jar) => {
                                self.phase = Phase::HaveSession { jar };
                                Action::FetchChallenge
                            },
                            Err(e) => {
                                self.phase = Phase::Finished;
                                Action::Fail { error: e }
                            },
                        }
                    }
                },
                Event::SessionFailed { error } => {
                    self.phase = Phase::Finished;
                    Action::Fail { error }
                },
                _ => {
                    self.phase = Phase::Finished;
                    Action::Fail { error: Error::Protocol("event out of protocol order".to_owned()) }
                },
            },
            Phase::HaveSession { jar } => match event {
                Event::Challenge { captcha } => {
                    if captcha.images.len() >= 1 {
                        let session = captcha.session.clone();
                        let image_id = captcha.images[0].clone();
                        proof {
                            assert(captcha.images.deep_view()[0] == captcha.images@[0]@);
                        }
                        let images: Vec<Vec<u8>> = Vec::new();
                        proof {
                            assert(images.deep_view() =~= Seq::<Seq<u8>>::empty());
                        }
                        self.phase = Phase::Fetching { jar, captcha, images };
                        Action::FetchImage { session, image_id }
                    } else {
                        self.phase = Phase::Finished;
                        Action::Fail {
                            error: Error::Protocol("challenge offers no candidates".to_owned()),
                        }
                    }
                },
                Event::ChallengeFailed { error } => {
                    self.phase = Phase::Finished;
                    Action::Fail { error }
                },
                _ => {
                    self.phase = Phase::Finished;
                    Action::Fail { error: Error::Protocol("event out of protocol order".to_owned()) }
                },
            },
            Phase::Fetching { jar, captcha, mut images } => match event {
                Event::Image { bytes } => {
                    let ghost imgs0 = images.deep_view();
                    let ghost bv = bytes@;
                    images.push(bytes);
                    proof {
                        assert(images.deep_view() =~~= imgs0.push(bv));
                    }
                    if images.len() < captcha.images.len() {
                        let k = images.len();
                        let session = captcha.session.clone();
                        let image_id = captcha.images[k].clone();
                        proof {
                            assert(captcha.images.deep_view()[k as int] == captcha.images@[
                                k as int]@);
                        }
                        self.phase = Phase::Fetching { jar, captcha, images };
                        Action::FetchImage { session, image_id }
                    } else {
                        let question = captcha.question.clone();
                        let guess: usize;
                        let from_cache: bool;
                        match cache.lookup(captcha.question.as_str()) {
                            None => {
                                guess = 0;
                                from_cache = false;
                            },
                            Some(reference) => {
                                let ghost imgs = images.deep_view();
                                let ghost rv = reference@;
                                proof {
                                    assert forall|i: int| 0 <= i < imgs.len() implies #[trigger]
                                        imgs[i] == images@[i]@ by {}
                                }
                                match best_match(reference, &images) {
                                    Ok(g) => {
                                        proof {
                                            assert forall|i: int|
                                                0 <= i < imgs.len() implies comparable(rv,
                                                #[trigger] imgs[i]) by {
                                                assert(imgs[i] == images@[i]@);
                                            }
                                            assert forall|i: int|
                                                0 <= i < imgs.len() && (#[trigger] imgs[i]) == rv
                                                implies g as int <= i by {
                                                assert(imgs[i] == images@[i]@);
                                            }
                                        }
                                        guess = g;
                                        from_cache = true;
                                    },
                                    Err(e) => {
                                        proof {
                                            if png_info(rv) is Some && (forall|i: int|
                                                0 <= i < imgs.len() ==> comparable(rv, #[trigger]
                                                imgs[i])) {
                                                assert forall|i: int|
                                                    0 <= i < images@.len() implies comparable(
                                                    rv, images@[i]@) by {
                                                    assert(imgs[i] == images@[i]@);
                                                    assert(comparable(rv, imgs[i]));
                                                }
                                                assert(false);
                                            }
                                        }
                                        self.phase = Phase::Finished;
                                        return Action::Fail { error: e };
                                    },
                                }
                            },
                        }
                        let session = captcha.session.clone();
                        let image_id = captcha.images[guess].clone();
                        proof {
                            assert(captcha.images.deep_view()[guess as int] == captcha.images@[
                                guess as int]@);
                        }
                        let first_image = images[0].clone();
                        proof {
                            assert(images.deep_view()[0] == images@[0]@);
                        }
                        let cookie = jar.serialize();
                        self.phase = Phase::Submitted { question, first_image, from_cache };
                        Action::Submit { session, image_id, cookie }
                    }
                },
                Event::ImageFailed { error } => {
                    self.phase = Phase::Finished;
                    Action::Fail { error }
                },
                _ => {
                    self.phase = Phase::Finished;
                    Action::Fail { error: Error::Protocol("event out of protocol order".to_owned()) }
                },
            },
            Phase::Submitted { question, first_image, from_cache } => match event {
                Event::Verdict { body } => {
                    if is_rejected(body.as_str()) {
                        if self.attempts_left <= 1 {
                            self.attempts_left = 0;
                            self.phase = Phase::Finished;
                            Action::Fail { error: Error::Exhausted }
                        } else {
                            self.attempts_left = self.attempts_left - 1;
                            self.phase = Phase::Start;
                            Action::FetchSession
                        }
                    } else {
                        if !from_cache {
                            cache.record(question, first_image);
                        }
                        self.phase = Phase::Finished;
                        Action::Done { payload: body }
                    }
                },
                Event::VerdictFailed { error } => {
                    self.phase = Phase::Finished;
                    Action::Fail { error }
                },
                _ => {
                    self.phase = Phase::Finished;
                    Action::Fail { error: Error::Protocol("event out of protocol order".to_owned()) }
                },
            },
            Phase::Finished => {
                self.phase = Phase::Finished;
                Action::Fail { error: Error::Protocol("attempt already ended".to_owned()) }
            },
        }
    }
}

} // verus!
