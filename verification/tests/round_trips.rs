use bytes::Bytes;
use rust_git::git_object::{GitBlob, GitCommit, GitLeaf, GitObject, GitTree, GitWriteable};
use rust_git::key_value_list_message::KeyValuePairList;
use rust_git::object_utils::{decode_object, encode_object};

/// A small generator of numbers that gives the same run every time.
struct Numbers(u64);

impl Numbers {
    fn next(&mut self, below: u64) -> u64 {
        self.0 = self.0.wrapping_mul(6364136223846793005).wrapping_add(1442695040888963407);
        (self.0 >> 33) % below
    }

    fn bytes(&mut self, alphabet: &[u8], longest: u64) -> Vec<u8> {
        let n = self.next(longest + 1);
        (0..n).map(|_| alphabet[self.next(alphabet.len() as u64) as usize]).collect()
    }
}

#[test]
fn generated_messages_round_trip() {
    let mut numbers = Numbers(7);
    for _ in 0..300 {
        let mut list = KeyValuePairList::new();
        for _ in 0..numbers.next(6) {
            let mut key = numbers.bytes(b"abc", 2);
            key.push(b'k');
            let value = numbers.bytes(b"xy \n\n", 8);
            list.insert_pair(String::from_utf8(key).unwrap(), Bytes::from(value));
        }
        if numbers.next(2) == 0 {
            list.insert_contents(Bytes::from(numbers.bytes(b"xy \n", 10)));
        }
        let wire = list.into_bytes();
        assert_eq!(KeyValuePairList::from(wire.clone()), Ok(list.clone()), "{:?}", wire);
        let commit = GitObject::Commit(GitCommit { data: list });
        assert_eq!(decode_object(&encode_object(&commit).unwrap()), Ok(commit));
    }
}

#[test]
fn generated_bytes_read_the_same_after_a_round_trip() {
    let mut numbers = Numbers(11);
    let mut read = 0;
    for _ in 0..2000 {
        let input = Bytes::from(numbers.bytes(b"ab \n\n", 12));
        if let Ok(list) = KeyValuePairList::from(input.clone()) {
            read += 1;
            assert_eq!(KeyValuePairList::from(list.into_bytes()), Ok(list), "{:?}", input);
        }
    }
    assert!(read > 100);
}

#[test]
fn generated_trees_round_trip_in_any_order() {
    let mut numbers = Numbers(13);
    for _ in 0..200 {
        let mut leaves = Vec::new();
        for _ in 0..numbers.next(7) {
            leaves.push(GitLeaf {
                mode: String::from_utf8(numbers.bytes(b"0146", 6)).unwrap(),
                path: String::from_utf8(numbers.bytes(b"ab/.", 4)).unwrap(),
                sha: String::from_utf8(numbers.bytes(b"0123456789abcdef", 40)).unwrap(),
                sort_key: String::from_utf8(numbers.bytes(b"ab/", 3)).unwrap(),
            });
        }
        let forward = GitTree { items: leaves.clone() };
        leaves.reverse();
        let backward = GitTree { items: leaves.clone() };
        let payload = forward.serialize();
        assert_eq!(payload, backward.serialize());
        let read = GitTree::deserialize(payload.clone()).unwrap();
        assert_eq!(read.serialize(), payload);
        let mut sorted = leaves.clone();
        sorted.sort_by(|a, b| {
            (a.path.as_bytes(), a.mode.len(), &a.mode, &a.path, a.sha.len(), &a.sha)
                .cmp(&(b.path.as_bytes(), b.mode.len(), &b.mode, &b.path, b.sha.len(), &b.sha))
        });
        let paths: Vec<&String> = read.items.iter().map(|l| &l.path).collect();
        let expected: Vec<&String> = sorted.iter().map(|l| &l.path).collect();
        assert_eq!(paths, expected);
        let tree = GitObject::Tree(forward);
        assert_eq!(decode_object(&encode_object(&tree).unwrap()), Ok(GitObject::Tree(read)));
    }
}

#[test]
fn generated_blobs_round_trip() {
    let mut numbers = Numbers(17);
    for _ in 0..200 {
        let data = numbers.bytes(&[0, 10, 32, 48, 255], 40);
        let blob = GitObject::Blob(GitBlob { data: Some(Bytes::from(data)) });
        assert_eq!(decode_object(&encode_object(&blob).unwrap()), Ok(blob));
    }
}
