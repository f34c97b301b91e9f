use anime4you::cache::AnswerCache;
use anime4you::challenge::Captcha;
use anime4you::solver::{Action, Event, Phase, Solver};

fn px(r: u8, g: u8, b: u8) -> lodepng::RGBA {
    lodepng::RGBA { r, g, b, a: 255 }
}

fn png(base: (u8, u8, u8)) -> Vec<u8> {
    let pixels = vec![px(base.0, base.1, base.2); 64];
    lodepng::encode32(&pixels, 8, 8).unwrap()
}

fn captcha(question: &str) -> Captcha {
    Captcha::new(
        "sess1".to_string(),
        "c_".to_string(),
        question.to_string(),
        vec!["h0".to_string(), "h1".to_string(), "h2".to_string(), "h3".to_string()],
    )
}

fn session_event() -> Event {
    Event::Session { success: true, headers: vec!["sid=abc; path=/".to_string()] }
}

/// Drives one whole attempt from the session event to the verdict and
/// returns the actions taken.
fn run_attempt(
    solver: &mut Solver,
    cache: &mut AnswerCache,
    question: &str,
    images: &[Vec<u8>],
    verdict: &str,
) -> Vec<Action> {
    let mut actions = Vec::new();
    actions.push(solver.step(cache, session_event()));
    actions.push(solver.step(cache, Event::Challenge { captcha: captcha(question) }));
    for img in images {
        actions.push(solver.step(cache, Event::Image { bytes: img.clone() }));
    }
    actions.push(solver.step(cache, Event::Verdict { body: verdict.to_string() }));
    actions
}

fn submitted_id(actions: &[Action]) -> String {
    for a in actions {
        if let Action::Submit { image_id, .. } = a {
            return image_id.clone();
        }
    }
    panic!("no submit action");
}

#[test]
fn cache_miss_guesses_first_candidate_and_records_on_accept() {
    let mut solver = Solver::new(77, 1, 3);
    let mut cache = AnswerCache::new();
    let images = vec![png((10, 0, 0)), png((0, 10, 0)), png((0, 0, 10)), png((5, 5, 5))];
    let actions = run_attempt(
        &mut solver,
        &mut cache,
        "Welches Bild zeigt eine Katze?",
        &images,
        "<html>unlocked</html>",
    );
    assert_eq!(submitted_id(&actions), "h0");
    match actions.last().unwrap() {
        Action::Done { payload } => assert_eq!(payload, "<html>unlocked</html>"),
        other => panic!("expected Done, got {:?}", action_kind(other)),
    }
    assert_eq!(
        cache.lookup("Welches Bild zeigt eine Katze?").unwrap().as_slice(),
        images[0].as_slice()
    );
}

#[test]
fn cache_hit_picks_the_closest_candidate() {
    let mut solver = Solver::new(77, 1, 3);
    let mut cache = AnswerCache::new();
    let reference = png((123, 45, 67));
    cache.record("Welches Bild zeigt eine Katze?".to_string(), reference.clone());
    let images = vec![png((250, 0, 0)), png((0, 250, 0)), reference.clone(), png((0, 0, 250))];
    let actions = run_attempt(
        &mut solver,
        &mut cache,
        "Welches Bild zeigt eine Katze?",
        &images,
        "<html>ok</html>",
    );
    assert_eq!(submitted_id(&actions), "h2");
    assert_eq!(cache.len(), 1);
}

#[test]
fn rejection_restarts_cleanly() {
    let images = vec![png((1, 1, 1)), png((2, 2, 2)), png((3, 3, 3)), png((4, 4, 4))];
    let question = "Welches Bild zeigt einen Hund?";

    // rejected on attempt 1, accepted on attempt 2
    let mut solver = Solver::new(77, 1, 3);
    let mut cache = AnswerCache::new();
    let first = run_attempt(&mut solver, &mut cache, question, &images, "FALSE");
    assert!(matches!(first.last().unwrap(), Action::FetchSession));
    assert!(matches!(solver.phase, Phase::Start));
    assert_eq!(solver.attempts_left, 2);
    assert_eq!(cache.len(), 0);
    let second = run_attempt(&mut solver, &mut cache, question, &images, "<html>done</html>");

    // a single accepting attempt, run directly
    let mut fresh = Solver::new(77, 1, 3);
    let mut fresh_cache = AnswerCache::new();
    let direct = run_attempt(&mut fresh, &mut fresh_cache, question, &images, "<html>done</html>");

    match (second.last().unwrap(), direct.last().unwrap()) {
        (Action::Done { payload: a }, Action::Done { payload: b }) => assert_eq!(a, b),
        _ => panic!("both runs must accept"),
    }
    assert_eq!(cache.encode(), fresh_cache.encode());
    assert!(matches!(solver.phase, Phase::Finished));
}

#[test]
fn budget_exhaustion_fails_the_resolution() {
    let images = vec![png((1, 1, 1)), png((2, 2, 2)), png((3, 3, 3)), png((4, 4, 4))];
    let mut solver = Solver::new(77, 1, 2);
    let mut cache = AnswerCache::new();
    let first = run_attempt(&mut solver, &mut cache, "F?", &images, "FALSE");
    assert!(matches!(first.last().unwrap(), Action::FetchSession));
    let second = run_attempt(&mut solver, &mut cache, "F?", &images, "FALSE");
    match second.last().unwrap() {
        Action::Fail { error } => assert_eq!(error.message(), "retry budget exhausted by rejected captchas"),
        _ => panic!("expected exhaustion"),
    }
    assert_eq!(solver.attempts_left, 0);
}

#[test]
fn transport_failure_is_fatal() {
    let mut solver = Solver::new(77, 1, 3);
    let mut cache = AnswerCache::new();
    let a = solver.step(
        &mut cache,
        Event::SessionFailed { error: anime4you::error::Error::Network("timeout".to_string()) },
    );
    match a {
        Action::Fail { error } => assert_eq!(error.message(), "timeout"),
        _ => panic!("expected failure"),
    }
    assert!(matches!(solver.phase, Phase::Finished));
}

#[test]
fn failed_session_status_is_protocol_error() {
    let mut solver = Solver::new(77, 1, 3);
    let mut cache = AnswerCache::new();
    let a = solver.step(&mut cache, Event::Session { success: false, headers: vec![] });
    assert!(matches!(a, Action::Fail { .. }));
}

#[test]
fn image_fetch_actions_follow_candidate_order() {
    let mut solver = Solver::new(77, 1, 3);
    let mut cache = AnswerCache::new();
    solver.step(&mut cache, session_event());
    let a1 = solver.step(&mut cache, Event::Challenge { captcha: captcha("Q?") });
    match a1 {
        Action::FetchImage { session, image_id } => {
            assert_eq!(session, "sess1");
            assert_eq!(image_id, "h0");
        },
        _ => panic!("expected image fetch"),
    }
    let a2 = solver.step(&mut cache, Event::Image { bytes: png((1, 1, 1)) });
    match a2 {
        Action::FetchImage { image_id, .. } => assert_eq!(image_id, "h1"),
        _ => panic!("expected image fetch"),
    }
}

fn action_kind(a: &Action) -> &'static str {
    match a {
        Action::FetchSession => "FetchSession",
        Action::FetchChallenge => "FetchChallenge",
        Action::FetchImage { .. } => "FetchImage",
        Action::Submit { .. } => "Submit",
        Action::Done { .. } => "Done",
        Action::Fail { .. } => "Fail",
    }
}
