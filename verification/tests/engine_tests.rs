use zkcore::fft::{Fft, Polynomial, root_of_unity, S};
use zkcore::fr::Fr;
use zkcore::keyring::{KeyTable, Keyring, Pair, Public};
use zkcore::kzg::{eval_at, KeyPair};
use zkcore::plonk::{Pallet, PalletError};

fn xorshift(state: &mut u64) -> u64 {
    let mut x = *state;
    x ^= x << 13;
    x ^= x >> 7;
    x ^= x << 17;
    *state = x;
    x
}

fn random_fr(state: &mut u64) -> Fr {
    Fr::to_mont_form([
        xorshift(state),
        xorshift(state),
        xorshift(state),
        xorshift(state),
    ])
}

fn poly_eq(a: &Polynomial, b: &Polynomial) -> bool {
    a.0.len() == b.0.len() && a.0.iter().zip(b.0.iter()).all(|(x, y)| x == y)
}

#[test]
fn test_root_of_unity() {
    let mut r = root_of_unity();
    for _ in 0..S {
        r = r.square();
    }
    assert_eq!(r, Fr::one());
}

#[test]
fn fft_round_trip() {
    let mut st = 0x1111_2222_3333_4444u64;
    let fft = Fft::new(5);
    for _ in 0..20 {
        let coeffs: Vec<Fr> = (0..32).map(|_| random_fr(&mut st)).collect();
        let original = Polynomial::new(coeffs.clone());
        let mut p = Polynomial::new(coeffs);
        fft.dft(&mut p);
        fft.idft(&mut p);
        assert!(poly_eq(&p, &original));
    }
}

#[test]
fn coset_round_trip() {
    let mut st = 0x9999_aaaa_bbbb_ccccu64;
    let fft = Fft::new(5);
    let coeffs: Vec<Fr> = (0..32).map(|_| random_fr(&mut st)).collect();
    let original = Polynomial::new(coeffs.clone());
    let mut p = Polynomial::new(coeffs);
    fft.coset_dft(&mut p);
    fft.coset_idft(&mut p);
    assert!(poly_eq(&p, &original));
}

fn naive_multiply(a: &[Fr], b: &[Fr]) -> Vec<Fr> {
    let mut c = vec![Fr::zero(); a.len() + b.len()];
    for (i, x) in a.iter().enumerate() {
        for (j, y) in b.iter().enumerate() {
            c[i + j] = c[i + j].add(x.mul(*y));
        }
    }
    c
}

#[test]
fn fft_multiplication_matches_schoolbook() {
    // the concrete scenario: coefficients 1, 2, 3, .. of degree 15,
    // multiplied over a size-32 transform
    let fft = Fft::new(5);
    let a: Vec<Fr> = (1u64..=16).map(Fr::from_u64).collect();
    let b: Vec<Fr> = (1u64..=16).map(|v| Fr::from_u64(2 * v + 1)).collect();
    let mut expected = naive_multiply(&a, &b);
    expected.resize(32, Fr::zero());

    let mut pa = a.clone();
    pa.resize(32, Fr::zero());
    let mut pb = b.clone();
    pb.resize(32, Fr::zero());
    let product = fft.poly_mul(Polynomial::new(pa), Polynomial::new(pb));
    assert!(poly_eq(&product, &Polynomial::new(expected)));
}

#[test]
fn kzg_commit_and_open_scenario() {
    // p(X) = 3 X^2 + 2 X + 1, committed under a setup of degree 2,
    // opened at X = 5: the evaluation must be 86
    let secret = Fr::from_u64(123456789);
    let key = KeyPair::setup(2, secret);
    let poly = Polynomial::new(vec![Fr::from_u64(1), Fr::from_u64(2), Fr::from_u64(3)]);
    let eval = eval_at(&poly, Fr::from_u64(5));
    assert_eq!(eval, Fr::from_u64(86));
    // the commitment is the polynomial evaluated on the reference string
    let commitment = key.commit(&poly);
    let by_hand = Fr::from_u64(1)
        .add(Fr::from_u64(2).mul(secret))
        .add(Fr::from_u64(3).mul(secret).mul(secret));
    assert_eq!(commitment, by_hand);
}

#[test]
fn setup_runs_only_once_and_verify_needs_setup() {
    let mut pallet = Pallet::new();
    // verifying before setup must fail with the not-set-up condition
    assert_eq!(pallet.verify(true), Err(PalletError::NotSetup));
    // first setup succeeds
    assert!(pallet.trusted_setup(4, Fr::from_u64(77)).is_ok());
    assert!(pallet.get_keypair().is_some());
    // a second setup must fail with the already-set-up condition
    assert_eq!(
        pallet.trusted_setup(4, Fr::from_u64(88)),
        Err(PalletError::AlreadySetup)
    );
    // after setup, the checker's verdict decides
    assert_eq!(pallet.verify(true), Ok(()));
    assert_eq!(pallet.verify(false), Err(PalletError::InvalidProof));
}

fn test_table() -> KeyTable {
    let mut pairs = [Pair {
        secret: [0u8; 32],
        public: [0u8; 32],
    }; 8];
    for (i, pair) in pairs.iter_mut().enumerate() {
        pair.secret = [i as u8; 32];
        pair.public = [0x10 + i as u8; 32];
    }
    KeyTable { pairs }
}

#[test]
fn keyring_lookups() {
    let table = test_table();
    assert_eq!(Keyring::Alice.to_raw_public(&table), [0x10; 32]);
    assert_eq!(Keyring::Two.to_raw_public(&table), [0x17; 32]);
    assert_eq!(Keyring::from_raw_public([0x11; 32], &table), Some(Keyring::Bob));
    assert_eq!(Keyring::from_raw_public([0x77; 32], &table), None);
    assert_eq!(
        Keyring::from_public(&Public([0x15; 32]), &table),
        Some(Keyring::Ferdie)
    );
    assert_eq!(Keyring::Eve.to_raw_public_vec(&table), vec![0x14u8; 32]);
    assert_eq!(Keyring::Charlie.public(&table).0, [0x12; 32]);
    assert_eq!(Keyring::Dave.pair(&table).secret, [3u8; 32]);
    assert_eq!(Keyring::Alice.to_seed(), "//Alice");
    assert_eq!(Keyring::Two.to_seed(), "//Two");
}
