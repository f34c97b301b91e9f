use anime4you::cache::AnswerCache;

#[test]
fn lookup_miss_and_hit() {
    let mut cache = AnswerCache::new();
    assert!(cache.lookup("Welches Bild zeigt eine Katze?").is_none());
    assert!(cache.record("Welches Bild zeigt eine Katze?".to_string(), vec![1, 2, 3]));
    assert_eq!(
        cache.lookup("Welches Bild zeigt eine Katze?").unwrap().as_slice(),
        &[1, 2, 3]
    );
    assert_eq!(cache.len(), 1);
}

#[test]
fn first_writer_wins() {
    let mut cache = AnswerCache::new();
    assert!(cache.record("q".to_string(), vec![1]));
    assert!(!cache.record("q".to_string(), vec![2]));
    assert_eq!(cache.lookup("q").unwrap().as_slice(), &[1]);
    assert_eq!(cache.len(), 1);
}

#[test]
fn key_equality_is_exact() {
    let mut cache = AnswerCache::new();
    cache.record("Frage A".to_string(), vec![1]);
    assert!(cache.lookup("frage a").is_none());
    assert!(cache.lookup("Frage A ").is_none());
}

#[test]
fn encode_decode_round_trip() {
    let mut cache = AnswerCache::new();
    cache.record("Welches Bild zeigt eine Katze?".to_string(), vec![9, 8, 7, 6]);
    cache.record("Frage: Hund?".to_string(), vec![]);
    cache.record("".to_string(), vec![0, 255]);
    let bytes = cache.encode();
    let back = AnswerCache::decode(bytes.as_slice()).unwrap();
    assert_eq!(back.len(), 3);
    assert_eq!(
        back.lookup("Welches Bild zeigt eine Katze?").unwrap().as_slice(),
        &[9, 8, 7, 6]
    );
    assert_eq!(back.lookup("Frage: Hund?").unwrap().len(), 0);
    assert_eq!(back.lookup("").unwrap().as_slice(), &[0, 255]);
    assert_eq!(back.encode(), bytes);
}

#[test]
fn empty_cache_round_trip() {
    let cache = AnswerCache::new();
    let bytes = cache.encode();
    let back = AnswerCache::decode(bytes.as_slice()).unwrap();
    assert_eq!(back.len(), 0);
}

#[test]
fn decode_refuses_corrupt_stores() {
    assert!(AnswerCache::decode(&[]).is_none());
    assert!(AnswerCache::decode(&[1, 2, 3]).is_none());
    let mut cache = AnswerCache::new();
    cache.record("q".to_string(), vec![1, 2]);
    let mut bytes = cache.encode();
    bytes.push(0);
    assert!(AnswerCache::decode(bytes.as_slice()).is_none());
    let mut truncated = cache.encode();
    truncated.pop();
    assert!(AnswerCache::decode(truncated.as_slice()).is_none());
}
