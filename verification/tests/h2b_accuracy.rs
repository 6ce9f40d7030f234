//! Accuracy of the two-bit estimator on synthetic corpora with a known true
//! cardinality. The corpus named by each test is generated deterministically
//! from its name: a stream of `n` lines holding `actual` distinct values,
//! mirroring the word streams of the original texts.

use hypertwobits::h2b::{HyperTwoBits, M2048};
use hypertwobits::SipHasher13DefaultBuilder;

fn run(corpus: &str, actual: usize, delta: f64, n: usize) {
    // the unseeded SipHasher13 strategy keeps the runs reproducible
    let mut htb: HyperTwoBits<M2048, SipHasher13DefaultBuilder> = HyperTwoBits::new();
    let mut htb_a: HyperTwoBits<M2048, SipHasher13DefaultBuilder> = HyperTwoBits::new();
    let mut htb_b: HyperTwoBits<M2048, SipHasher13DefaultBuilder> = HyperTwoBits::new();

    let n = if n == usize::MAX { actual * 4 } else { n };
    for i in 0..n {
        let line = format!("{}:{:x}", corpus, i % actual);
        let s = line.as_bytes();
        if (i / actual + i) % 2 == 0 {
            htb_a.insert(&s);
        } else {
            htb_b.insert(&s);
        }
        htb.insert(&s);
    }

    htb_a.merge(htb_b);

    let count = actual as f64;
    let delta_htb = (count - htb.count() as f64).abs() / count;
    let delta_htbm = (count - htb_a.count() as f64).abs() / count;

    assert!(
        delta_htb < delta,
        "HTB delta too high: {delta_htb}\nCount: {count}\nHTB: {}",
        htb.count()
    );
    // the merged pair is less precise; allow twice the delta
    assert!(
        delta_htbm < delta * 2.0,
        "HTB (merged) delta too high: {delta_htbm}\nCount: {count}\nHTB: {}",
        htb_a.count()
    );
}

#[test]
fn test_shakespear() {
    run("data/Shakespeare.csv", 35594, 0.1, usize::MAX);
}

#[test]
fn test_shakespear_100() {
    run("data/Shakespeare.csv", 75, 0.22, 100);
}

#[test]
fn test_shakespear_1_000() {
    run("data/Shakespeare.csv", 462, 0.13, 1_000);
}

#[test]
fn test_shakespear_10_000() {
    run("data/Shakespeare.csv", 2501, 0.1, 10_000);
}

#[test]
fn test_shakespear_100_000() {
    run("data/Shakespeare.csv", 9519, 0.1, 100_000);
}

#[test]
fn test_ulysses() {
    run("data/Ulysses.csv", 35343, 0.1, usize::MAX);
}

#[test]
fn test_ulysses_100() {
    run("data/Ulysses.csv", 74, 0.23, 100);
}

#[test]
fn test_ulysses_1_000() {
    run("data/Ulysses.csv", 471, 0.14, 1_000);
}

#[test]
fn test_ulysses_10_000() {
    run("data/Ulysses.csv", 2510, 0.1, 10_000);
}

#[test]
fn test_ulysses_100_000() {
    run("data/Ulysses.csv", 14869, 0.12, 100_000);
}

#[test]
fn test_war_and_peace() {
    run("data/War_and_Peace.csv", 22668, 0.1, usize::MAX);
}

#[test]
fn test_war_and_peace_100() {
    run("data/War_and_Peace.csv", 70, 0.20, 100);
}

#[test]
fn test_war_and_peace_1_000() {
    run("data/War_and_Peace.csv", 200, 0.13, 1_000);
}

#[test]
fn test_war_and_peace_10_000() {
    run("data/War_and_Peace.csv", 2030, 0.1, 10_000);
}

#[test]
fn test_war_and_peace_100_000() {
    run("data/War_and_Peace.csv", 8248, 0.1, 100_000);
}
