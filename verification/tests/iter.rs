use tools::iter::{IterTools, StreamingIterator};

#[test]
fn utf8_chars() {
    // Single byte (ASCII): Latin Capital Letter B
    assert_eq!(vec![0x42].utf8_iter().next(), Some(Some('B')));

    // Two Bytes: Latin Small Letter Gamma
    assert_eq!(vec![0xC9, 0xA3].utf8_iter().next(), Some(Some('ɣ')));

    // Three Bytes: Snowman ☃
    assert_eq!(vec![0xE2, 0x98, 0x83].utf8_iter().next(), Some(Some('☃')));

    // Four Bytes: Unicode Han Character 'to peel, pare'
    assert_eq!(vec![0xF0, 0xA0, 0x9C, 0xB1].utf8_iter().next(), Some(Some('𠜱')));

    // Multiple runes
    assert_eq!(
        vec![0x42, 0xC9, 0xA3, 0xE2, 0x98, 0x83, 0xF0, 0xA0, 0x9C, 0xB1, 0xff, 0x41]
            .utf8_iter()
            .collect(),
        vec![Some('B'), Some('ɣ'), Some('☃'), Some('𠜱'), None, Some('A')]
    );
}

#[test]
fn refs() {
    // Check lifetime stuff
    let mut iter = {
        let items: Vec<i32> = (0i32..5).collect();
        items.refs()
    };
    let mut i = 0;
    while let Some(v) = iter.next_streaming() {
        assert_eq!(&mut i, v);
        i += 1;
    }
}

#[test]
fn dedup() {
    let mut v = vec![1, 1, 2, 3, 3, 4, 3, 3, 3, 3, 4, 4, 5, 6];
    Vec::dedup(&mut v);
    let v2: Vec<i32> = v.clone().dedup().collect();
    assert_eq!(v, v2);
}

fn decode(bytes: &[u8]) -> Vec<Option<char>> {
    bytes.to_vec().utf8_iter().collect()
}

#[test]
fn utf8_scalar_values() {
    assert_eq!(decode(&[0xC9, 0xA3]), vec![char::from_u32(0x263)]);
    assert_eq!(decode(&[0xE2, 0x98, 0x83]), vec![char::from_u32(0x2603)]);
    assert_eq!(decode(&[0xF0, 0xA0, 0x9C, 0xB1]), vec![char::from_u32(0x20731)]);
    assert_eq!(decode(&[0x00]), vec![Some('\0')]);
    assert_eq!(decode(&[0x7F]), vec![Some('\u{7F}')]);
    assert_eq!(decode(&[0xDF, 0xBF]), vec![Some('\u{7FF}')]);
    assert_eq!(decode(&[0xE0, 0xA0, 0x80]), vec![Some('\u{800}')]);
    assert_eq!(decode(&[0xEF, 0xBF, 0xBF]), vec![Some('\u{FFFF}')]);
    assert_eq!(decode(&[0xF0, 0x90, 0x80, 0x80]), vec![Some('\u{10000}')]);
    assert_eq!(decode(&[0xF4, 0x8F, 0xBF, 0xBF]), vec![Some('\u{10FFFF}')]);
}

#[test]
fn utf8_empty_source() {
    let mut it = Vec::<u8>::new().utf8_iter();
    assert_eq!(it.next(), None);
    assert_eq!(it.next(), None);
    assert_eq!(decode(&[]), vec![]);
}

#[test]
fn utf8_stays_at_the_end() {
    let mut it = vec![0x41u8].utf8_iter();
    assert_eq!(it.next(), Some(Some('A')));
    assert_eq!(it.next(), None);
    assert_eq!(it.next(), None);
}

#[test]
fn utf8_lone_leaders() {
    // a continuation byte cannot lead a unit
    assert_eq!(decode(&[0x80]), vec![None]);
    assert_eq!(decode(&[0xBF, 0x41]), vec![None, Some('A')]);
    // five and more leading one bits
    assert_eq!(decode(&[0xF8, 0x41]), vec![None, Some('A')]);
    assert_eq!(decode(&[0xFC, 0x41]), vec![None, Some('A')]);
    assert_eq!(decode(&[0xFE]), vec![None]);
    assert_eq!(decode(&[0xFF]), vec![None]);
    // a trailing lone 0xFF is one malformed unit
    assert_eq!(decode(&[0x41, 0xFF]), vec![Some('A'), None]);
}

#[test]
fn utf8_source_ends_early() {
    assert_eq!(decode(&[0xC9]), vec![None]);
    assert_eq!(decode(&[0xE2]), vec![None]);
    assert_eq!(decode(&[0xE2, 0x98]), vec![None]);
    assert_eq!(decode(&[0xF0]), vec![None]);
    assert_eq!(decode(&[0xF0, 0xA0]), vec![None]);
    assert_eq!(decode(&[0xF0, 0xA0, 0x9C]), vec![None]);
}

#[test]
fn utf8_rejected_byte_is_read_again() {
    // the second byte does not fit: only the leading byte is taken
    assert_eq!(decode(&[0xC9, 0x41]), vec![None, Some('A')]);
    assert_eq!(decode(&[0xE2, 0x41]), vec![None, Some('A')]);
    assert_eq!(decode(&[0xC9, 0xC9, 0xA3]), vec![None, Some('ɣ')]);
    // the third byte does not fit: two bytes are taken
    assert_eq!(decode(&[0xE2, 0x98, 0x41]), vec![None, Some('A')]);
    assert_eq!(decode(&[0xE2, 0x98, 0xE2, 0x98, 0x83]), vec![None, Some('☃')]);
    // the fourth byte does not fit: three bytes are taken
    assert_eq!(decode(&[0xF0, 0xA0, 0x9C, 0x41]), vec![None, Some('A')]);
}

#[test]
fn utf8_second_byte_table() {
    // overlong forms of three and four bytes
    assert_eq!(decode(&[0xE0, 0x9F, 0xBF]), vec![None, None, None]);
    assert_eq!(decode(&[0xF0, 0x8F, 0xBF, 0xBF]), vec![None, None, None, None]);
    // surrogates
    assert_eq!(decode(&[0xED, 0xA0, 0x80]), vec![None, None, None]);
    assert_eq!(decode(&[0xED, 0x9F, 0xBF]), vec![Some('\u{D7FF}')]);
    assert_eq!(decode(&[0xEE, 0x80, 0x80]), vec![Some('\u{E000}')]);
    // above U+10FFFF
    assert_eq!(decode(&[0xF4, 0x90, 0x80, 0x80]), vec![None, None, None, None]);
    assert_eq!(decode(&[0xF5, 0x80, 0x80, 0x80]), vec![None, None, None, None]);
    assert_eq!(decode(&[0xF7, 0x80, 0x80, 0x80]), vec![None, None, None, None]);
}

#[test]
fn utf8_two_bytes_take_any_continuation() {
    assert_eq!(decode(&[0xC2, 0x80]), vec![Some('\u{80}')]);
    // an overlong form of two bytes is taken as it stands
    assert_eq!(decode(&[0xC0, 0x80]), vec![Some('\0')]);
    assert_eq!(decode(&[0xC1, 0xBF]), vec![Some('\u{7F}')]);
}

#[test]
fn utf8_round_trip_of_the_well_formed_part() {
    let bytes: Vec<u8> = vec![
        0x42, 0xFF, 0xC9, 0xA3, 0xE2, 0x98, 0x41, 0xE2, 0x98, 0x83, 0x80, 0xF0, 0xA0, 0x9C, 0xB1,
        0xF0, 0xA0,
    ];
    let well_formed: Vec<u8> = vec![
        0x42, 0xC9, 0xA3, 0x41, 0xE2, 0x98, 0x83, 0xF0, 0xA0, 0x9C, 0xB1,
    ];
    let mut encoded = String::new();
    for unit in bytes.utf8_iter().collect() {
        if let Some(c) = unit {
            encoded.push(c);
        }
    }
    assert_eq!(encoded.into_bytes(), well_formed);
}

#[test]
fn utf8_decodes_what_std_encodes() {
    let text = "a\u{7F}\u{80}ɣ\u{7FF}\u{800}☃\u{D7FF}\u{E000}\u{FFFF}\u{10000}𠜱\u{10FFFF}";
    let units = text.as_bytes().to_vec().utf8_iter().collect();
    let chars: Vec<Option<char>> = text.chars().map(Some).collect();
    assert_eq!(units, chars);
}

fn drain<'a>(group: &mut tools::iter::Group<'a, i32, fn(&i32) -> i32, i32>) -> Vec<i32> {
    let mut items = Vec::new();
    while let Some(x) = group.next() {
        items.push(x);
    }
    items
}

fn tens(x: &i32) -> i32 {
    *x / 10
}

#[test]
fn group_runs() {
    let items = vec![1, 2, 11, 12, 13, 3, 21];
    let mut groups = items.clone().group(tens as fn(&i32) -> i32);
    let mut keys = Vec::new();
    let mut runs = Vec::new();
    while let Some((key, mut group)) = groups.next_streaming() {
        keys.push(key);
        runs.push(drain(&mut group));
    }
    assert_eq!(keys, vec![0, 1, 0, 2]);
    assert_eq!(runs, vec![vec![1, 2], vec![11, 12, 13], vec![3], vec![21]]);
    // the runs, one after the other, are the sequence
    assert_eq!(runs.concat(), items);
    // each item of a run has the key of the run
    for (key, run) in keys.iter().zip(runs.iter()) {
        assert!(run.iter().all(|x| tens(x) == *key));
    }
    // neighbouring runs have different keys
    assert!(keys.windows(2).all(|w| w[0] != w[1]));
}

#[test]
fn group_through_the_trait() {
    let mut groups = vec![5, 6, 15].group(tens as fn(&i32) -> i32);
    let mut keys = Vec::new();
    while let Some((key, _group)) = StreamingIterator::next_streaming(&mut groups) {
        keys.push(key);
    }
    assert_eq!(keys, vec![0, 1]);
}

#[test]
fn group_with_a_closure() {
    let words = vec!["apple", "avocado", "banana", "cherry", "cranberry"];
    let mut groups = words.group(|w: &&str| w.as_bytes()[0]);
    let mut seen = Vec::new();
    while let Some((key, mut group)) = groups.next_streaming() {
        let mut count = 0;
        while let Some(_) = group.next() {
            count += 1;
        }
        seen.push((key, count));
    }
    assert_eq!(seen, vec![(b'a', 2), (b'b', 1), (b'c', 2)]);
}

#[test]
fn group_collects_what_is_left_of_a_run() {
    let mut groups = vec![1, 2, 3, 11, 21, 22].group(tens as fn(&i32) -> i32);
    {
        let (key, mut group) = groups.next_streaming().unwrap();
        assert_eq!(key, 0);
        assert_eq!(group.next(), Some(1));
        assert_eq!(group.collect(), vec![2, 3]);
    }
    {
        let (key, group) = groups.next_streaming().unwrap();
        assert_eq!(key, 1);
        assert_eq!(group.collect(), vec![11]);
    }
    {
        let (key, group) = groups.next_streaming().unwrap();
        assert_eq!(key, 2);
        assert_eq!(group.collect(), vec![21, 22]);
    }
    assert!(groups.next_streaming().is_none());
}

#[test]
fn group_of_nothing() {
    let mut groups = Vec::<i32>::new().group(tens as fn(&i32) -> i32);
    assert!(groups.next_streaming().is_none());
    assert!(groups.next_streaming().is_none());
}

#[test]
fn group_passes_over_a_run_that_was_not_read() {
    let mut groups = vec![1, 2, 11, 12, 21].group(tens as fn(&i32) -> i32);
    let mut keys = Vec::new();
    while let Some((key, _)) = groups.next_streaming() {
        keys.push(key);
    }
    assert_eq!(keys, vec![0, 1, 2]);
}

#[test]
fn group_passes_over_the_rest_of_a_run() {
    let mut groups = vec![1, 2, 3, 11, 12, 21].group(tens as fn(&i32) -> i32);
    {
        let (key, mut group) = groups.next_streaming().unwrap();
        assert_eq!(key, 0);
        assert_eq!(group.next(), Some(1));
    }
    {
        let (key, mut group) = groups.next_streaming().unwrap();
        assert_eq!(key, 1);
        assert_eq!(drain(&mut group), vec![11, 12]);
        // the run has ended, and goes on saying so
        assert_eq!(group.next(), None);
    }
    {
        let (key, mut group) = groups.next_streaming().unwrap();
        assert_eq!(key, 2);
        assert_eq!(drain(&mut group), vec![21]);
    }
    assert!(groups.next_streaming().is_none());
}

#[test]
fn group_whose_end_was_not_asked_for() {
    // Both items of the first run are taken, but the group is not asked for
    // a third one: the run counts as open. Nothing of it is left, so the
    // next pull passes over nothing.
    let mut groups = vec![1, 2, 11, 12, 21].group(tens as fn(&i32) -> i32);
    {
        let (key, mut group) = groups.next_streaming().unwrap();
        assert_eq!(key, 0);
        assert_eq!(group.next(), Some(1));
        assert_eq!(group.next(), Some(2));
    }
    {
        let (key, mut group) = groups.next_streaming().unwrap();
        assert_eq!(key, 1);
        assert_eq!(drain(&mut group), vec![11, 12]);
    }
    let (key, mut group) = groups.next_streaming().unwrap();
    assert_eq!(key, 2);
    assert_eq!(drain(&mut group), vec![21]);
}

#[test]
fn group_passes_over_the_open_key_only() {
    let mut groups = vec![1, 1, 2, 2, 3].group(|x: &i32| *x);
    {
        let (key, mut group) = groups.next_streaming().unwrap();
        assert_eq!(key, 1);
        assert_eq!(group.next(), Some(1));
        assert_eq!(group.next(), Some(1));
    }
    {
        let (key, group) = groups.next_streaming().unwrap();
        assert_eq!(key, 2);
        assert_eq!(group.collect(), vec![2, 2]);
    }
    {
        let (key, group) = groups.next_streaming().unwrap();
        assert_eq!(key, 3);
        assert_eq!(group.collect(), vec![3]);
    }
    assert!(groups.next_streaming().is_none());
}

#[test]
fn group_passes_over_what_shares_the_open_key() {
    // the run of key 0 is open when its first item was taken; the items
    // that follow with that key are passed over, wherever the run was left
    let mut groups = vec![1, 2, 3, 4, 11].group(tens as fn(&i32) -> i32);
    {
        let (key, mut group) = groups.next_streaming().unwrap();
        assert_eq!(key, 0);
        assert_eq!(group.next(), Some(1));
        assert_eq!(group.next(), Some(2));
    }
    let (key, group) = groups.next_streaming().unwrap();
    assert_eq!(key, 1);
    assert_eq!(group.collect(), vec![11]);
}

#[test]
fn groups_collect_all_runs() {
    let items = vec![1, 2, 11, 12, 13, 3, 21];
    let runs = items.clone().group(tens as fn(&i32) -> i32).collect();
    assert_eq!(
        runs,
        vec![(0, vec![1, 2]), (1, vec![11, 12, 13]), (0, vec![3]), (2, vec![21])]
    );
    let all: Vec<i32> = runs.iter().flat_map(|run| run.1.iter().copied()).collect();
    assert_eq!(all, items);
    assert!(runs.windows(2).all(|w| w[0].0 != w[1].0));
    assert!(runs.iter().all(|run| run.1.iter().all(|x| tens(x) == run.0)));
    assert_eq!(Vec::<i32>::new().group(tens as fn(&i32) -> i32).collect(), vec![]);
}

#[test]
fn groups_collect_after_an_open_run() {
    let mut groups = vec![1, 2, 3, 11, 12, 21].group(tens as fn(&i32) -> i32);
    {
        let (_, mut group) = groups.next_streaming().unwrap();
        assert_eq!(group.next(), Some(1));
    }
    assert_eq!(groups.collect(), vec![(1, vec![11, 12]), (2, vec![21])]);
}

#[test]
fn utf8_counts_the_bytes_read() {
    let mut it = vec![0x42, 0xC9, 0xA3, 0xE2, 0x98, 0x41, 0xFF].utf8_iter();
    assert_eq!(it.bytes_read(), 0);
    assert_eq!(it.next(), Some(Some('B')));
    assert_eq!(it.bytes_read(), 1);
    assert_eq!(it.next(), Some(Some('ɣ')));
    assert_eq!(it.bytes_read(), 3);
    assert_eq!(it.next(), Some(None));
    assert_eq!(it.bytes_read(), 5);
    assert_eq!(it.next(), Some(Some('A')));
    assert_eq!(it.bytes_read(), 6);
    assert_eq!(it.next(), Some(None));
    assert_eq!(it.bytes_read(), 7);
    assert_eq!(it.next(), None);
    assert_eq!(it.bytes_read(), 7);
}

#[test]
fn dedup_pulls() {
    let mut it = vec![7, 7, 7, 8, 7, 7].dedup();
    assert_eq!(it.next(), Some(7));
    assert_eq!(it.next(), Some(8));
    assert_eq!(it.next(), Some(7));
    assert_eq!(it.next(), None);
    assert_eq!(it.next(), None);
}

#[test]
fn dedup_edges() {
    assert_eq!(Vec::<i32>::new().dedup().collect(), Vec::<i32>::new());
    assert_eq!(vec![4].dedup().collect(), vec![4]);
    assert_eq!(vec![4, 4, 4].dedup().collect(), vec![4]);
    assert_eq!(vec![1, 2, 3].dedup().collect(), vec![1, 2, 3]);
    assert_eq!(vec!["a", "a", "b", "a"].dedup().collect(), vec!["a", "b", "a"]);
}

#[test]
fn refs_can_be_written_through() {
    let mut it = vec![String::from("a"), String::from("b")].refs();
    let mut seen = Vec::new();
    while let Some(s) = it.next_streaming() {
        s.push('!');
        seen.push(s.clone());
    }
    assert_eq!(seen, vec!["a!", "b!"]);
    assert!(it.next_streaming().is_none());
}

#[test]
fn refs_of_nothing() {
    let mut it = Vec::<u8>::new().refs();
    assert!(it.next_streaming().is_none());
}

#[test]
fn streaming_over_an_ordinary_iterator() {
    let mut it = 0..3;
    assert_eq!(it.next_streaming(), Some(0));
    assert_eq!(it.next_streaming(), Some(1));
    assert_eq!(it.next_streaming(), Some(2));
    assert_eq!(it.next_streaming(), None);
}

#[test]
fn utf8_window_of_four_bytes_suffices() {
    let bytes: Vec<u8> = vec![
        0x42, 0xFF, 0xC9, 0xA3, 0xE2, 0x98, 0x41, 0xE2, 0x98, 0x83, 0x80, 0xF0, 0xA0, 0x9C, 0xB1,
        0xF0, 0xA0, 0xC9,
    ];
    let mut source = bytes.clone().into_iter();
    let mut window: Vec<u8> = Vec::new();
    let mut units = Vec::new();
    loop {
        while window.len() < 4 {
            match source.next() {
                Some(byte) => window.push(byte),
                None => break,
            }
        }
        let mut front = window.clone().utf8_iter();
        match front.next() {
            Some(unit) => units.push(unit),
            None => break,
        }
        window.drain(..front.bytes_read());
    }
    assert_eq!(units, bytes.utf8_iter().collect());
}

#[test]
fn dedup_of_a_pair_tells_a_repeat() {
    assert_eq!(vec![3, 3].dedup().collect(), vec![3]);
    assert_eq!(vec![3, 4].dedup().collect(), vec![3, 4]);
}
