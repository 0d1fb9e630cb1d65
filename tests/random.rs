use mazes::random::{pick, sample};

#[test]
fn sample_empty_vector() {
    let mut rng = rand::thread_rng();

    let vs: Vec<String> = vec![];

    assert_eq!(sample(&mut rng, &vs), None)
}

#[test]
fn sample_nonempty_vector() {
    let mut rng = rand::thread_rng();
    let vs: Vec<usize> = vec![1, 2, 3, 4, 5, 6, 7, 8, 9];

    for _ in 1..100 {
        match sample(&mut rng, &vs) {
            Some(item) => assert!(vs.contains(item)),
            None => panic!("should always return item"),
        }
    }
}

#[test]
fn sample_of_one_returns_it() {
    let mut rng = rand::thread_rng();
    let vs = vec![42u32];
    assert_eq!(sample(&mut rng, &vs), Some(&42));
}

#[test]
fn sample_reaches_more_than_the_first_element() {
    let mut rng = rand::thread_rng();
    let vs: Vec<usize> = (0..10).collect();
    let mut other = false;
    for _ in 0..200 {
        if sample(&mut rng, &vs) != Some(&0) {
            other = true;
        }
    }
    assert!(other);
}

#[test]
fn pick_reduces_the_draw() {
    let vs = vec![10, 20, 30];
    assert_eq!(pick(&vs, 1), Some(&20));
    assert_eq!(pick(&vs, 5), Some(&30));
    let empty: Vec<i32> = vec![];
    assert_eq!(pick(&empty, 3), None);
}
