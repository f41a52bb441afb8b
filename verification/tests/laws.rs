use additive_ntt::additive_ntt::AdditiveNTT;
use additive_ntt::additive_ntt_with_precompute::AdditiveNTTWithPrecompute;
use additive_ntt::binary_field::{BinaryField32b, BinaryField8b};
use additive_ntt::field::{BinaryField, Field};
use additive_ntt::twiddles::cantor_basis_subspace_map;

fn subspace_poly<F: BinaryField>(i: usize, x: F) -> F {
    let mut result = x;
    for _ in 0..i {
        result = cantor_basis_subspace_map(result);
    }
    result
}

/// The value at `x` of the polynomial with the novel basis coefficients `d`.
fn evaluate(d: &[BinaryField8b], x: BinaryField8b) -> BinaryField8b {
    let mut result = BinaryField8b::zero();
    for (k, coefficient) in d.iter().enumerate() {
        let mut term = *coefficient;
        for i in 0..8 {
            if (k >> i) & 1 == 1 {
                term = term.mul(subspace_poly(i, x));
            }
        }
        result = result.add(term);
    }
    result
}

fn invert(x: BinaryField8b) -> BinaryField8b {
    let mut result = BinaryField8b::one();
    for _ in 0..254 {
        result = result.mul(x);
    }
    result
}

/// The value at `x` of the polynomial of least degree with the given values.
fn interpolate(
    points: &[BinaryField8b],
    values: &[BinaryField8b],
    x: BinaryField8b,
) -> BinaryField8b {
    let mut result = BinaryField8b::zero();
    for (i, value) in values.iter().enumerate() {
        let mut term = *value;
        for (j, point) in points.iter().enumerate() {
            if i != j {
                term = term.mul(x.add(*point)).mul(invert(points[i].add(*point)));
            }
        }
        result = result.add(term);
    }
    result
}

fn sample(n: usize) -> Vec<BinaryField8b> {
    (0..n).map(|i| BinaryField8b((37 * i + 11) as u8)).collect()
}

#[test]
fn forward_transform_evaluates() {
    let ntt = <AdditiveNTT<BinaryField8b>>::new(8).unwrap();
    for log_n in 0..7 {
        let n = 1usize << log_n;
        let data = sample(n);
        for coset in 0..(256 / n as u32) {
            let mut values = data.clone();
            ntt.forward_transform(&mut values, coset).unwrap();
            for (p, value) in values.iter().enumerate() {
                let point = BinaryField8b((coset as usize * n + p) as u8);
                assert_eq!(*value, evaluate(&data, point));
            }
        }
    }
}

#[test]
fn inverse_transform_interpolates() {
    let ntt = <AdditiveNTT<BinaryField8b>>::new(8).unwrap();
    let n = 16;
    let values = sample(n);
    let points = (0..n).map(|p| BinaryField8b(p as u8)).collect::<Vec<_>>();
    let mut data = values.clone();
    ntt.inverse_transform(&mut data, 0).unwrap();
    for coset in 0..16 {
        let mut extended = data.clone();
        ntt.forward_transform(&mut extended, coset).unwrap();
        for (p, value) in extended.iter().enumerate() {
            let point = BinaryField8b((coset as usize * n + p) as u8);
            assert_eq!(*value, interpolate(&points, &values, point));
        }
    }
}

#[test]
fn transforms_are_linear() {
    let ntt = <AdditiveNTT<BinaryField8b>>::new(8).unwrap();
    let c = BinaryField32b(0x89abcdef);
    let x = (1..9u32).map(|i| BinaryField32b(i * 0x01234567)).collect::<Vec<_>>();
    let y = (1..9u32).map(|i| BinaryField32b(i ^ 0x76543210)).collect::<Vec<_>>();
    let z = x
        .iter()
        .zip(y.iter())
        .map(|(a, b)| a.add(b.mul(c)))
        .collect::<Vec<_>>();
    for coset in 0..8 {
        let (mut u, mut v, mut w) = (x.clone(), y.clone(), z.clone());
        ntt.forward_transform(&mut u, coset).unwrap();
        ntt.forward_transform(&mut v, coset).unwrap();
        ntt.forward_transform(&mut w, coset).unwrap();
        for p in 0..8 {
            assert_eq!(w[p], u[p].add(v[p].mul(c)));
        }

        let (mut u, mut v, mut w) = (x.clone(), y.clone(), z.clone());
        ntt.inverse_transform(&mut u, coset).unwrap();
        ntt.inverse_transform(&mut v, coset).unwrap();
        ntt.inverse_transform(&mut w, coset).unwrap();
        for p in 0..8 {
            assert_eq!(w[p], u[p].add(v[p].mul(c)));
        }
    }
}

#[test]
fn cosets_make_up_the_domain() {
    let ntt = <AdditiveNTT<BinaryField8b>>::new(8).unwrap();
    let data = sample(8);
    for coset in 0..8 {
        let mut wide = data.clone();
        wide.resize(32, BinaryField8b::zero());
        ntt.forward_transform(&mut wide, coset).unwrap();
        for i in 0..4 {
            let mut part = data.clone();
            ntt.forward_transform(&mut part, 4 * coset + i).unwrap();
            assert_eq!(wide[8 * i as usize..8 * (i as usize + 1)], part[..]);
        }
    }
}

#[test]
fn larger_domains_give_the_same_values() {
    let data = sample(4);
    let mut expected = data.clone();
    <AdditiveNTT<BinaryField8b>>::new(3)
        .unwrap()
        .forward_transform(&mut expected, 1)
        .unwrap();
    for log_domain_size in 3..9 {
        let ntt = <AdditiveNTT<BinaryField8b>>::new(log_domain_size).unwrap();
        let precompute = <AdditiveNTTWithPrecompute<BinaryField8b>>::new(log_domain_size).unwrap();
        let mut result = data.clone();
        ntt.forward_transform(&mut result, 1).unwrap();
        assert_eq!(result, expected);
        precompute.inverse_transform(&mut result, 1).unwrap();
        assert_eq!(result, data);
        precompute.forward_transform(&mut result, 1).unwrap();
        assert_eq!(result, expected);
        ntt.inverse_transform(&mut result, 1).unwrap();
        assert_eq!(result, data);
    }
}

#[test]
fn bases_are_cantor_bases() {
    for i in 0..8 {
        let vector = BinaryField8b::basis(i).unwrap();
        assert_eq!(subspace_poly(i, vector), BinaryField8b::one());
        assert_eq!(subspace_poly(i + 1, vector), BinaryField8b::zero());
    }
    for i in 0..32 {
        let vector = BinaryField32b::basis(i).unwrap();
        assert_eq!(subspace_poly(i, vector), BinaryField32b::one());
        assert_eq!(subspace_poly(i + 1, vector), BinaryField32b::zero());
    }
}

#[test]
fn subspace_map_takes_pairs_to_the_same_image() {
    for x in 0..=255 {
        let image = cantor_basis_subspace_map(BinaryField8b(x));
        for y in 0..=255 {
            let other = cantor_basis_subspace_map(BinaryField8b(y));
            assert_eq!(image == other, y == x || y == x ^ 1);
            let sum = cantor_basis_subspace_map(BinaryField8b(x ^ y));
            assert_eq!(sum, image.add(other));
        }
    }
}

#[test]
fn subspace_polynomials_are_products() {
    for i in 0..=8 {
        for x in (0..=255).map(BinaryField8b) {
            let mut product = BinaryField8b::one();
            for a in 0..1u32 << i {
                product = product.mul(x.add(BinaryField8b(a as u8)));
            }
            assert_eq!(subspace_poly(i, x), product);
            assert_eq!(product == BinaryField8b::zero(), (x.0 as u32) < 1 << i);
        }
    }
}

#[test]
fn elements_have_inverses() {
    for x in (1..=255).map(BinaryField8b) {
        assert_eq!(x.mul(invert(x)), BinaryField8b::one());
    }
}

#[test]
fn domain_of_the_larger_field() {
    let ntt = <AdditiveNTT<BinaryField32b>>::new(32).unwrap();
    let data = (0..8u32).map(|i| BinaryField32b(i * i + 5)).collect::<Vec<_>>();
    let mut result = data.clone();
    ntt.forward_transform(&mut result, 0x1fffffff).unwrap();
    assert_ne!(result, data);
    ntt.inverse_transform(&mut result, 0x1fffffff).unwrap();
    assert_eq!(result, data);

    // The coefficient with index one belongs to the identity.
    let mut identity = [BinaryField32b(0); 8];
    identity[1] = BinaryField32b(1);
    ntt.forward_transform(&mut identity, 0x12345678).unwrap();
    for (p, value) in identity.iter().enumerate() {
        assert_eq!(*value, BinaryField32b(0x91a2b3c0 + p as u32));
    }
}
