//! Exercises every width of the two-bit sketch store: level round trips,
//! isolation between substreams, and repeated aging.

use hypertwobits::h2b::Sketch;
use hypertwobits::h2b::{M1024, M128, M2048, M256, M4096, M512, M64};

fn exercise<S: Sketch + Default>() {
    let mut s = S::default();
    let streams = S::streams();
    for i in 0..streams {
        assert_eq!(s.val(i), 0);

        for r in 1..=3 {
            s.set(i, r);
            assert_eq!(s.val(i), r);
        }
        for j in 0..streams {
            if j == i {
                assert_eq!(s.val(j), 3);
            } else {
                assert_eq!(s.val(j), 0);
            }
        }
        s.set(i, 0);
        assert_eq!(s.val(i), 0);
    }
    for i in 0..streams {
        s.set(i, 3);
        assert_eq!(s.val(i), 3);
    }
    for r in (0..=2).rev() {
        s.decrement();
        for i in 0..streams {
            assert_eq!(s.val(i), r);
        }
    }
    s.decrement();
    for i in 0..streams {
        assert_eq!(s.val(i), 0);
    }
    assert_eq!(s.count(), 0);
}

#[test]
fn sketch_test_m64() {
    exercise::<M64>();
}

#[test]
fn sketch_test_m128() {
    exercise::<M128>();
}

#[test]
fn sketch_test_m265() {
    exercise::<M256>();
}

#[test]
fn sketch_test_m512() {
    exercise::<M512>();
}

#[test]
fn sketch_test_m1024() {
    exercise::<M1024>();
}

#[test]
fn sketch_test_m2048() {
    exercise::<M2048>();
}

#[test]
fn sketch_test_m4096() {
    exercise::<M4096>();
}
