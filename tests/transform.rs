use radix_fft::fft::{fft, FourierValue};

#[derive(Clone, Copy, Debug, PartialEq)]
struct Cart {
    re: f64,
    im: f64,
}

fn c(re: f64, im: f64) -> Cart {
    Cart { re, im }
}

fn times(a: Cart, b: Cart) -> Cart {
    c(a.re * b.re - a.im * b.im, a.re * b.im + a.im * b.re)
}

fn unit(turns: f64) -> Cart {
    let t = 2.0 * std::f64::consts::PI * turns;
    c(t.cos(), t.sin())
}

impl FourierValue for Cart {
    fn spec_zero() -> Self {
        Self::zero()
    }

    fn spec_plus(self, rhs: Self) -> Self {
        self.plus(rhs)
    }

    fn spec_toggle_sign(self) -> Self {
        FourierValue::toggle_sign(self)
    }

    fn spec_prod_i(self) -> Self {
        FourierValue::prod_i(self)
    }

    fn spec_rotate(self, k: usize, n: usize) -> Self {
        self.rotate(k, n)
    }

    fn zero() -> Self {
        c(0.0, 0.0)
    }

    fn plus(self, rhs: Self) -> Self {
        c(self.re + rhs.re, self.im + rhs.im)
    }

    fn toggle_sign(self) -> Self {
        c(-self.re, -self.im)
    }

    fn prod_i(self) -> Self {
        c(-self.im, self.re)
    }

    fn rotate(self, k: usize, n: usize) -> Self {
        times(self, unit(-(k as f64) / n as f64))
    }
}

fn naive_dft(x: &[Cart], len: usize) -> Vec<Cart> {
    (0..len)
        .map(|m| {
            let mut acc = c(0.0, 0.0);
            for (j, v) in x.iter().enumerate() {
                let w = unit(-(((j * m) % len) as f64) / len as f64);
                acc = acc.plus(times(*v, w));
            }
            acc
        })
        .collect()
}

fn close(a: Cart, b: Cart, tol: f64) -> bool {
    (a.re - b.re).abs() <= tol && (a.im - b.im).abs() <= tol
}

fn sample(len: usize, seed: u64) -> Vec<Cart> {
    let mut s = seed;
    let mut next = || {
        s = s.wrapping_mul(6364136223846793005).wrapping_add(1442695040888963407);
        ((s >> 33) as f64) / ((1u64 << 31) as f64) - 0.5
    };
    (0..len).map(|_| c(next(), next())).collect()
}

#[test]
fn fft_impulse_is_flat() {
    let x = vec![c(1.0, 0.0), c(0.0, 0.0), c(0.0, 0.0), c(0.0, 0.0)];
    let r = fft(&x);
    assert_eq!(r.len(), 4);
    for v in r {
        assert!(close(v, c(1.0, 0.0), 1e-12));
    }
}

#[test]
fn fft_of_one_to_four() {
    let x = vec![c(1.0, 0.0), c(2.0, 0.0), c(3.0, 0.0), c(4.0, 0.0)];
    let r = fft(&x);
    assert!(close(r[0], c(10.0, 0.0), 1e-12));
    assert!(close(r[1], c(-2.0, 2.0), 1e-12));
    assert!(close(r[2], c(-2.0, 0.0), 1e-12));
    assert!(close(r[3], c(-2.0, -2.0), 1e-12));
}

#[test]
fn fft_matches_naive_dft() {
    for (len, seed) in [(1usize, 3u64), (4, 5), (16, 7), (64, 11)] {
        let x = sample(len, seed);
        let r = fft(&x);
        let expected = naive_dft(&x, len);
        assert_eq!(r.len(), len);
        for k in 0..len {
            assert!(close(r[k], expected[k], 1e-6), "len {} bin {}", len, k);
        }
    }
}

#[test]
fn fft_pads_with_zeros() {
    let x = sample(5, 13);
    let r = fft(&x);
    assert_eq!(r.len(), 16);
    let expected = naive_dft(&x, 16);
    for k in 0..16 {
        assert!(close(r[k], expected[k], 1e-9));
    }
}

#[test]
fn fft_output_lengths() {
    assert_eq!(fft(&Vec::<Cart>::new()).len(), 1);
    assert_eq!(fft(&sample(1, 1)).len(), 1);
    assert_eq!(fft(&sample(2, 1)).len(), 4);
    assert_eq!(fft(&sample(16, 1)).len(), 16);
    assert_eq!(fft(&sample(17, 1)).len(), 64);
}

#[test]
fn fft_of_empty_is_zero() {
    let r = fft(&Vec::<Cart>::new());
    assert_eq!(r, vec![c(0.0, 0.0)]);
}

#[test]
fn fft_is_linear() {
    let x = sample(16, 21);
    let y = sample(16, 22);
    let a = c(1.5, -0.25);
    let b = c(-0.75, 2.0);
    let mixed: Vec<Cart> = x
        .iter()
        .zip(y.iter())
        .map(|(u, v)| times(a, *u).plus(times(b, *v)))
        .collect();
    let fx = fft(&x);
    let fy = fft(&y);
    let fm = fft(&mixed);
    for k in 0..16 {
        let expected = times(a, fx[k]).plus(times(b, fy[k]));
        assert!(close(fm[k], expected, 1e-9));
    }
}

#[test]
fn fft_of_zero_padded_input_is_unchanged() {
    let x = sample(5, 31);
    let mut y = x.clone();
    y.resize(16, c(0.0, 0.0));
    assert_eq!(fft(&x), fft(&y));
}

#[test]
fn fft_of_single_sample_is_that_sample() {
    let x = vec![c(2.5, -1.0)];
    assert_eq!(fft(&x), x);
}
