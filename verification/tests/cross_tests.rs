use parls::dirtree::DirTree;
use parls::duration::dur_from_str;
use parls::lex::{compare_bytes, find_key, ByteOrder};
use parls::path::{child_is_higher_than_base_dir, join_path, parent};
use parls::record::{render_decimal, render_octal};
use parls::topn::{to_sort_vec, track_top_n, TopN};
use parls::util::multi_extension;
use std::collections::BTreeMap;

struct Dice(u64);

impl Dice {
    fn roll(&mut self, sides: u64) -> u64 {
        self.0 = self.0.wrapping_mul(6364136223846793005).wrapping_add(1442695040888963407);
        (self.0 >> 33) % sides
    }

    fn bytes(&mut self, max_len: u64, alphabet: &[u8]) -> Vec<u8> {
        let n = self.roll(max_len + 1);
        (0..n).map(|_| alphabet[self.roll(alphabet.len() as u64) as usize]).collect()
    }
}

#[test]
fn byte_strings_are_ordered_as_vectors_are() {
    let mut dice = Dice(1);
    for _ in 0..5000 {
        let a = dice.bytes(6, b"ab/\xff");
        let b = dice.bytes(6, b"ab/\xff");
        let expected = if a < b {
            ByteOrder::Less
        } else if a == b {
            ByteOrder::Equal
        } else {
            ByteOrder::Greater
        };
        assert_eq!(compare_bytes(&a, &b), expected);
    }
}

#[test]
fn a_key_is_found_where_a_search_finds_it() {
    let mut dice = Dice(2);
    for _ in 0..300 {
        let mut keys: Vec<Vec<u8>> = (0..dice.roll(20)).map(|_| dice.bytes(3, b"abc")).collect();
        keys.sort();
        keys.dedup();
        let key = dice.bytes(3, b"abc");
        let expected = match keys.binary_search(&key) {
            Ok(i) => (true, i),
            Err(i) => (false, i),
        };
        assert_eq!(find_key(&keys, &key), expected);
    }
}

#[test]
fn a_ranking_is_the_head_of_the_sorted_offers() {
    let mut dice = Dice(3);
    for _ in 0..300 {
        let cap = dice.roll(6) as usize;
        let n = dice.roll(30) as usize;
        let offers: Vec<(u64, Vec<u8>)> = (0..n).map(|i| (dice.roll(8), format!("n{}", i).into_bytes())).collect();
        let mut top = TopN::new(cap);
        for (s, name) in &offers {
            track_top_n(&mut top, name, *s);
        }
        let mut sorted: Vec<(u64, Vec<u8>)> = offers.iter().filter(|(s, _)| *s > 0).cloned().collect();
        sorted.sort_by(|a, b| b.0.cmp(&a.0));
        sorted.truncate(cap);
        let held: Vec<(u64, Vec<u8>)> = to_sort_vec(&top).into_iter().map(|t| (t.size, t.path)).collect();
        assert_eq!(held, sorted);
    }
}

#[test]
fn digits_are_those_of_the_standard_library() {
    let mut dice = Dice(4);
    for _ in 0..2000 {
        let n = (dice.roll(1 << 31) << 33) ^ (dice.roll(1 << 31) << 2) ^ dice.roll(4);
        let shift = dice.roll(64);
        let n = n >> shift;
        assert_eq!(String::from_utf8(render_decimal(n as u128)).unwrap(), format!("{}", n));
        let m = n as u32;
        assert_eq!(String::from_utf8(render_octal(m)).unwrap(), format!("{:o}", m));
    }
}

#[test]
fn parents_are_those_of_the_standard_library() {
    let mut dice = Dice(5);
    for _ in 0..3000 {
        let mut p = dice.bytes(8, b"ab/");
        while p.len() > 1 && p.ends_with(b"/") {
            p.pop();
        }
        if p.windows(2).any(|w| w == b"//") {
            continue;
        }
        let text = String::from_utf8(p.clone()).unwrap();
        let expected = std::path::Path::new(&text).parent().map(|q| q.to_str().unwrap().as_bytes().to_vec());
        assert_eq!(parent(&p), expected, "{}", text);
    }
}

#[test]
fn what_is_joined_lies_within() {
    let mut dice = Dice(6);
    for _ in 0..500 {
        let mut dir = dice.bytes(3, b"ab");
        let mut chain = vec![dir.clone()];
        for _ in 0..dice.roll(4) {
            let mut name = dice.bytes(2, b"ab");
            name.push(b'x');
            dir = join_path(&dir, &name);
            chain.push(dir.clone());
        }
        for i in 0..chain.len() {
            for j in 0..chain.len() {
                assert_eq!(child_is_higher_than_base_dir(&chain[i], &chain[j]), j < i);
            }
        }
    }
}

#[test]
fn the_extension_is_found_by_its_shape() {
    let mut dice = Dice(7);
    for _ in 0..3000 {
        let mut dir = dice.bytes(6, b"a./");
        if !dir.is_empty() {
            dir.push(b'/');
        }
        let name = dice.bytes(12, b"ab.");
        let n = name.len();
        let is_start = |s: usize| -> bool {
            if s + 1 >= n || name[s] != b'.' {
                return false;
            }
            for j in (s + 1)..n {
                let lo = if j >= 4 { std::cmp::max(s, j - 4) } else { s };
                if !(lo..j).any(|d| name[d] == b'.') {
                    return false;
                }
            }
            let lo = if s >= 4 { s - 4 } else { 0 };
            !(lo..s).any(|d| name[d] == b'.')
        };
        let starts: Vec<usize> = (0..n).filter(|s| is_start(*s)).collect();
        assert!(starts.len() <= 1);
        let expected = starts.first().map(|s| name[*s..].to_vec());
        assert_eq!(multi_extension(&name), expected, "{:?}", String::from_utf8_lossy(&name));
        let mut path = dir.clone();
        path.extend_from_slice(&name);
        assert_eq!(multi_extension(&path), expected, "{:?}", String::from_utf8_lossy(&path));
    }
}

#[test]
fn durations_add_up() {
    let mut dice = Dice(8);
    let units = [('s', 1u64), ('m', 60), ('h', 3600), ('d', 86400), ('w', 604800), ('y', 31536000)];
    for _ in 0..1000 {
        let mut text = String::new();
        let mut total = 0u64;
        for _ in 0..dice.roll(5) {
            let n = dice.roll(1000);
            let (c, secs) = units[dice.roll(6) as usize];
            text.push_str(&format!("{}{}", n, c));
            total += n * secs;
        }
        assert_eq!(dur_from_str(&text), Ok(total), "{}", text);
    }
}

#[test]
fn the_roll_up_sums_every_subtree() {
    let mut dice = Dice(9);
    for _ in 0..100 {
        let root = b"/r".to_vec();
        let mut tree = DirTree::new();
        let mut direct: BTreeMap<Vec<u8>, u64> = BTreeMap::new();
        for _ in 0..dice.roll(25) {
            let mut dir = root.clone();
            for _ in 0..dice.roll(4) {
                let name = vec![b'a' + dice.roll(3) as u8];
                dir = join_path(&dir, &name);
            }
            tree.ensure_chain(&root, &dir);
            let (found, i) = tree.find(&dir);
            assert!(found);
            let size = dice.roll(1000);
            tree.add_direct(i, size, 1, 0);
            *direct.entry(dir).or_insert(0) += size;
        }
        tree.roll_up();
        for i in 0..tree.len() {
            let path = tree.path_at(i).clone();
            let below: u64 = direct
                .iter()
                .filter(|(p, _)| **p == path || (p.starts_with(&path) && p[path.len()] == b'/'))
                .map(|(_, s)| *s)
                .sum();
            assert_eq!(tree.stats_at(i).size_recursively, below);
            assert_eq!(tree.stats_at(i).size_directly, *direct.get(&path).unwrap_or(&0));
            assert!(tree.stats_at(i).file_count_recursively >= tree.stats_at(i).file_count_directly);
        }
    }
}
