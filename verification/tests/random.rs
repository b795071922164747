use base24::decode;
use base24::encode;

use rand::distributions::Standard;
use rand::{thread_rng, Rng};

#[test]
fn random_test() {
    for _ in 0..100 {
        let rng = thread_rng();
        let original_data: Vec<u8> = rng.sample_iter(Standard).take(64).collect();

        let encoded_data = encode(&original_data).expect("error during test encode");
        let decoded_data = decode(&encoded_data).expect("error during test decode");

        assert_eq!(decoded_data, original_data);
    }
}
