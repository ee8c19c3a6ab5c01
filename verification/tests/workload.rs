use rand::{Rng, SeedableRng};
use s3fifo::S3Fifo;

#[test]
fn it_works() {
    let mut rng = rand::rngs::StdRng::seed_from_u64(0);
    let mut q = S3Fifo::new(2, 20);

    let mut hit_rate: (u64, u64) = (0, 0);
    for i in 0..10_000u32 {
        println!("#{i}");
        let k: u64 = rng.gen_range(0..50);
        if rng.gen_bool(0.5) {
            println!("read {k}");
            match q.read(k) {
                Some(v) => {
                    println!("hit");
                    assert_eq!(v, k);
                    hit_rate.0 += 1;
                    hit_rate.1 += 1;
                }
                None => {
                    println!("miss");
                    assert!(!q.main_keys().contains(&k) && !q.small_keys().contains(&k));
                    hit_rate.1 += 1;
                }
            }
        } else {
            println!("insert {k}");
            q.insert(k, k);
        }
        assert!(q.main_len() <= 20);
        assert!(q.small_len() <= 2);
        assert!(q.ghost_len() <= 20);
    }
    let (n, d) = hit_rate;
    println!("{n}/{d} = {}", (n as f64) / (d as f64));
}
