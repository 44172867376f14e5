use bonsai::backends::rust::{generate_with_layout, Layout};
use bonsai::frontends::catboost::parse_json;
use bonsai::json;

// What is generated for the forest below, compiled into this file.

#[allow(unused_variables, dead_code, non_snake_case)]
const K0: u64 = 0xc3a5c85c97cb3127;
const K1: u64 = 0xb492b66fbe98f273;
const K2: u64 = 0x9ae16a3b2f90404f;
const K3: u64 = 0xc949d7c7509e6557;

fn rotate(val: u64, shift: u32) -> u64 {
    if shift == 0 { val } else { (val >> shift) | (val << (64 - shift)) }
}

fn shift_mix(val: u64) -> u64 { val ^ (val >> 47) }

fn hash_len16(u: u64, v: u64) -> u64 {
    const K_MUL: u64 = 0x9ddfea08eb382d69;
    let mut a = (u ^ v).wrapping_mul(K_MUL);
    a ^= a >> 47;
    let mut b = (v ^ a).wrapping_mul(K_MUL);
    b ^= b >> 47;
    b.wrapping_mul(K_MUL)
}

fn fetch64(s: &[u8], off: usize) -> u64 {
    let mut b = [0u8; 8];
    b.copy_from_slice(&s[off..off + 8]);
    u64::from_le_bytes(b)
}

fn fetch32(s: &[u8], off: usize) -> u32 {
    let mut b = [0u8; 4];
    b.copy_from_slice(&s[off..off + 4]);
    u32::from_le_bytes(b)
}

fn city_hash64_len0to16(s: &[u8]) -> u64 {
    let len = s.len();
    if len > 8 {
        let a = fetch64(s, 0);
        let b = fetch64(s, len - 8);
        return hash_len16(a, rotate(b.wrapping_add(len as u64), len as u32).wrapping_add(b)) ^ b;
    }
    if len >= 4 {
        let a = fetch32(s, 0) as u64;
        let b = fetch32(s, len - 4) as u64;
        return hash_len16((len as u64).wrapping_add(a << 3), b);
    }
    if len > 0 {
        let a = s[0] as u32;
        let b = s[len >> 1] as u32;
        let c = s[len - 1] as u32;
        let y = a.wrapping_add(b << 8);
        let z = (len as u32).wrapping_add(c << 2);
        return shift_mix((y as u64).wrapping_mul(K2) ^ (z as u64).wrapping_mul(K3)).wrapping_mul(K2);
    }
    K2
}

fn city_hash64_len17to32(s: &[u8]) -> u64 {
    let len = s.len();
    let a = fetch64(s, 0).wrapping_mul(K1);
    let b = fetch64(s, 8);
    let c = fetch64(s, len - 8).wrapping_mul(K2);
    let d = fetch64(s, len - 16).wrapping_mul(K0);
    hash_len16(
        rotate(a.wrapping_sub(b), 43).wrapping_add(rotate(c, 30)).wrapping_add(d),
        a.wrapping_add(rotate(b ^ K3, 20)).wrapping_sub(c).wrapping_add(len as u64),
    )
}

fn city_hash64_len33to64(s: &[u8]) -> u64 {
    let len = s.len();
    let z = fetch64(s, 24);
    let mut a = fetch64(s, 0).wrapping_add(
        (len as u64).wrapping_add(fetch64(s, len - 16)).wrapping_mul(K0));
    let mut b = rotate(a.wrapping_add(z), 52);
    let mut c = rotate(a, 37);
    a = a.wrapping_add(fetch64(s, 8));
    c = c.wrapping_add(rotate(a, 7));
    a = a.wrapping_add(fetch64(s, 16));
    let vf = a.wrapping_add(z);
    let vs = b.wrapping_add(rotate(a, 31)).wrapping_add(c);
    a = fetch64(s, 16).wrapping_add(fetch64(s, 24));
    let z2 = fetch64(s, len - 8);
    a = rotate(a.wrapping_add(z2), 52);
    b = rotate(a, 37);
    a = a.wrapping_add(fetch64(s, len - 24));
    b = b.wrapping_add(rotate(a, 11));
    a = a.wrapping_add(fetch64(s, len - 32));
    let wf = a.wrapping_add(z2);
    let ws = b.wrapping_add(fetch64(s, len - 16));
    let r = shift_mix(
        vf.wrapping_add(ws).wrapping_mul(K2)
            .wrapping_add(wf.wrapping_add(vs).wrapping_mul(K0)));
    shift_mix(r.wrapping_mul(K0).wrapping_add(vs)).wrapping_mul(K2)
}

fn weak_hash32(s: &[u8], off: usize, mut a: u64, mut b: u64) -> (u64, u64) {
    let w = fetch64(s, off);
    let x = fetch64(s, off + 8);
    let y = fetch64(s, off + 16);
    let z = fetch64(s, off + 24);
    a = a.wrapping_add(w);
    b = rotate(b.wrapping_add(a).wrapping_add(z), 21);
    let c = a;
    a = a.wrapping_add(x).wrapping_add(y);
    b = b.wrapping_add(rotate(a, 44));
    (a.wrapping_add(z), b.wrapping_add(c))
}

fn city_hash64(s: &[u8]) -> u64 {
    let len = s.len();
    if len <= 16 { return city_hash64_len0to16(s); }
    if len <= 32 { return city_hash64_len17to32(s); }
    if len <= 64 { return city_hash64_len33to64(s); }
    let mut x = fetch64(s, len - 40);
    let mut y = fetch64(s, len - 16).wrapping_add(fetch64(s, len - 56));
    let mut z = hash_len16(
        fetch64(s, len - 48).wrapping_add(len as u64),
        fetch64(s, len - 24));
    let mut v = weak_hash32(s, len - 64, len as u64, z);
    let mut w = weak_hash32(s, len - 32, y.wrapping_add(K1), x);
    x = x.wrapping_mul(K1).wrapping_add(fetch64(s, 0));
    let mut pos = 0usize;
    let mut tail = (len - 1) & !63usize;
    loop {
        x = rotate(
            x.wrapping_add(y).wrapping_add(v.0).wrapping_add(fetch64(s, pos + 8)), 37)
            .wrapping_mul(K1);
        y = rotate(y.wrapping_add(v.1).wrapping_add(fetch64(s, pos + 48)), 42)
            .wrapping_mul(K1);
        x ^= w.1;
        y = y.wrapping_add(v.0).wrapping_add(fetch64(s, pos + 40));
        z = rotate(z.wrapping_add(w.0), 33).wrapping_mul(K1);
        v = weak_hash32(s, pos, v.1.wrapping_mul(K1), x.wrapping_add(w.0));
        w = weak_hash32(s, pos + 32, z.wrapping_add(w.1),
            y.wrapping_add(fetch64(s, pos + 16)));
        let tmp = z; z = x; x = tmp;
        pos += 64;
        tail -= 64;
        if tail == 0 { break; }
    }
    hash_len16(
        hash_len16(v.0, w.0).wrapping_add(shift_mix(y).wrapping_mul(K1)).wrapping_add(z),
        hash_len16(v.1, w.1).wrapping_add(x))
}

fn catboost_calc_hash(a: u64, b: u64) -> u64 {
    const MAGIC_MULT: u64 = 0x4906ba494954cb65;
    MAGIC_MULT.wrapping_mul(a.wrapping_add(MAGIC_MULT.wrapping_mul(b)))
}

#[allow(unused_variables, dead_code)]
fn calculate_ctrs(float_features: &[f32], cat_features: &[&str]) -> Vec<f64> {
    vec![
        {
            let mut combined_hash = 0u64;
            {
                let cat_idx = 2usize;
                let cat_val = cat_features[cat_idx];
                let h32 = city_hash64(cat_val.as_bytes()) as u32;
                combined_hash = catboost_calc_hash(combined_hash, (h32 as i32) as i64 as u64);
            }
            {
                let hash_map: &[u64] = &[
                    7u64, 3u64, 4u64, 9u64, 5u64, 6u64, 18446744073709551615u64, 1u64, 2u64
                ];
                let stride = 3usize;
                let mut low = 0;
                let mut high = hash_map.len() / stride;
                let mut found_idx = None;
                while low < high {
                    let mid = low + (high - low) / 2;
                    let h = hash_map[mid * stride];
                    if h < combined_hash {
                        low = mid + 1;
                    } else if h > combined_hash {
                        high = mid;
                    } else {
                        found_idx = Some(mid);
                        break;
                    }
                }

                let (count_in_class, total_count) = if let Some(idx) = found_idx {
                    let base = idx * stride;
                    if stride == 3 {
                        (
                            hash_map[base + 2] as f64, (hash_map[base + 1] + hash_map[base + 2]) as f64
                        )
                    } else {
                        (0.0, 4i64 as f64)
                    }
                } else {
                    (0.0, 4i64 as f64)
                };

                let ctr_val = (count_in_class + 0.5f64) / (total_count + 1f64);
                (ctr_val + 0f64) * 15f64
            }
        }
    ]
}

pub struct Model;

#[allow(unused_variables, dead_code)]
impl Model {
    pub const N_CLASSES: usize = 1;

    pub fn predict(&self, features: &[f32]) -> f32 {
        self.predict_internal(features, &[])
    }

    pub fn predict_cat(&self, float_features: &[f32], cat_features: &[&str]) -> f32 {
        let ctrs = calculate_ctrs(float_features, cat_features);
        self.predict_internal(float_features, &ctrs)
    }

    pub fn predict_batch(&self, features: &[f32], n_features: usize, out: &mut [f32]) {
        for (i, row) in features.chunks_exact(n_features).enumerate() {
            out[i] = self.predict(row);
        }
    }

    fn predict_internal(&self, features: &[f32], ctrs: &[f64]) -> f32 {
        let raw: f64 = 0f64 + Self::tree_0(features, ctrs) * 1f64;
        (1.0f64 / (1.0f64 + (-raw).exp())) as f32
    }

    #[allow(unused_variables)]
    fn tree_0(features: &[f32], ctrs: &[f64]) -> f64 {
        let index = 0usize
            | if {
                let val = features[0usize];
                ctrs[0usize] >= (7.5f32 as f64)
            } {
                1usize
            } else {
                0
            };
        const LEAVES: [f64; 2usize] = [-1.5f64, 2.5f64];
        LEAVES[index]
    }
}

// The same once more, as text.
const SOURCE: &str = r#"
#[allow(unused_variables, dead_code, non_snake_case)]
const K0: u64 = 0xc3a5c85c97cb3127;
const K1: u64 = 0xb492b66fbe98f273;
const K2: u64 = 0x9ae16a3b2f90404f;
const K3: u64 = 0xc949d7c7509e6557;

fn rotate(val: u64, shift: u32) -> u64 {
    if shift == 0 { val } else { (val >> shift) | (val << (64 - shift)) }
}

fn shift_mix(val: u64) -> u64 { val ^ (val >> 47) }

fn hash_len16(u: u64, v: u64) -> u64 {
    const K_MUL: u64 = 0x9ddfea08eb382d69;
    let mut a = (u ^ v).wrapping_mul(K_MUL);
    a ^= a >> 47;
    let mut b = (v ^ a).wrapping_mul(K_MUL);
    b ^= b >> 47;
    b.wrapping_mul(K_MUL)
}

fn fetch64(s: &[u8], off: usize) -> u64 {
    let mut b = [0u8; 8];
    b.copy_from_slice(&s[off..off + 8]);
    u64::from_le_bytes(b)
}

fn fetch32(s: &[u8], off: usize) -> u32 {
    let mut b = [0u8; 4];
    b.copy_from_slice(&s[off..off + 4]);
    u32::from_le_bytes(b)
}

fn city_hash64_len0to16(s: &[u8]) -> u64 {
    let len = s.len();
    if len > 8 {
        let a = fetch64(s, 0);
        let b = fetch64(s, len - 8);
        return hash_len16(a, rotate(b.wrapping_add(len as u64), len as u32).wrapping_add(b)) ^ b;
    }
    if len >= 4 {
        let a = fetch32(s, 0) as u64;
        let b = fetch32(s, len - 4) as u64;
        return hash_len16((len as u64).wrapping_add(a << 3), b);
    }
    if len > 0 {
        let a = s[0] as u32;
        let b = s[len >> 1] as u32;
        let c = s[len - 1] as u32;
        let y = a.wrapping_add(b << 8);
        let z = (len as u32).wrapping_add(c << 2);
        return shift_mix((y as u64).wrapping_mul(K2) ^ (z as u64).wrapping_mul(K3)).wrapping_mul(K2);
    }
    K2
}

fn city_hash64_len17to32(s: &[u8]) -> u64 {
    let len = s.len();
    let a = fetch64(s, 0).wrapping_mul(K1);
    let b = fetch64(s, 8);
    let c = fetch64(s, len - 8).wrapping_mul(K2);
    let d = fetch64(s, len - 16).wrapping_mul(K0);
    hash_len16(
        rotate(a.wrapping_sub(b), 43).wrapping_add(rotate(c, 30)).wrapping_add(d),
        a.wrapping_add(rotate(b ^ K3, 20)).wrapping_sub(c).wrapping_add(len as u64),
    )
}

fn city_hash64_len33to64(s: &[u8]) -> u64 {
    let len = s.len();
    let z = fetch64(s, 24);
    let mut a = fetch64(s, 0).wrapping_add(
        (len as u64).wrapping_add(fetch64(s, len - 16)).wrapping_mul(K0));
    let mut b = rotate(a.wrapping_add(z), 52);
    let mut c = rotate(a, 37);
    a = a.wrapping_add(fetch64(s, 8));
    c = c.wrapping_add(rotate(a, 7));
    a = a.wrapping_add(fetch64(s, 16));
    let vf = a.wrapping_add(z);
    let vs = b.wrapping_add(rotate(a, 31)).wrapping_add(c);
    a = fetch64(s, 16).wrapping_add(fetch64(s, 24));
    let z2 = fetch64(s, len - 8);
    a = rotate(a.wrapping_add(z2), 52);
    b = rotate(a, 37);
    a = a.wrapping_add(fetch64(s, len - 24));
    b = b.wrapping_add(rotate(a, 11));
    a = a.wrapping_add(fetch64(s, len - 32));
    let wf = a.wrapping_add(z2);
    let ws = b.wrapping_add(fetch64(s, len - 16));
    let r = shift_mix(
        vf.wrapping_add(ws).wrapping_mul(K2)
            .wrapping_add(wf.wrapping_add(vs).wrapping_mul(K0)));
    shift_mix(r.wrapping_mul(K0).wrapping_add(vs)).wrapping_mul(K2)
}

fn weak_hash32(s: &[u8], off: usize, mut a: u64, mut b: u64) -> (u64, u64) {
    let w = fetch64(s, off);
    let x = fetch64(s, off + 8);
    let y = fetch64(s, off + 16);
    let z = fetch64(s, off + 24);
    a = a.wrapping_add(w);
    b = rotate(b.wrapping_add(a).wrapping_add(z), 21);
    let c = a;
    a = a.wrapping_add(x).wrapping_add(y);
    b = b.wrapping_add(rotate(a, 44));
    (a.wrapping_add(z), b.wrapping_add(c))
}

fn city_hash64(s: &[u8]) -> u64 {
    let len = s.len();
    if len <= 16 { return city_hash64_len0to16(s); }
    if len <= 32 { return city_hash64_len17to32(s); }
    if len <= 64 { return city_hash64_len33to64(s); }
    let mut x = fetch64(s, len - 40);
    let mut y = fetch64(s, len - 16).wrapping_add(fetch64(s, len - 56));
    let mut z = hash_len16(
        fetch64(s, len - 48).wrapping_add(len as u64),
        fetch64(s, len - 24));
    let mut v = weak_hash32(s, len - 64, len as u64, z);
    let mut w = weak_hash32(s, len - 32, y.wrapping_add(K1), x);
    x = x.wrapping_mul(K1).wrapping_add(fetch64(s, 0));
    let mut pos = 0usize;
    let mut tail = (len - 1) & !63usize;
    loop {
        x = rotate(
            x.wrapping_add(y).wrapping_add(v.0).wrapping_add(fetch64(s, pos + 8)), 37)
            .wrapping_mul(K1);
        y = rotate(y.wrapping_add(v.1).wrapping_add(fetch64(s, pos + 48)), 42)
            .wrapping_mul(K1);
        x ^= w.1;
        y = y.wrapping_add(v.0).wrapping_add(fetch64(s, pos + 40));
        z = rotate(z.wrapping_add(w.0), 33).wrapping_mul(K1);
        v = weak_hash32(s, pos, v.1.wrapping_mul(K1), x.wrapping_add(w.0));
        w = weak_hash32(s, pos + 32, z.wrapping_add(w.1),
            y.wrapping_add(fetch64(s, pos + 16)));
        let tmp = z; z = x; x = tmp;
        pos += 64;
        tail -= 64;
        if tail == 0 { break; }
    }
    hash_len16(
        hash_len16(v.0, w.0).wrapping_add(shift_mix(y).wrapping_mul(K1)).wrapping_add(z),
        hash_len16(v.1, w.1).wrapping_add(x))
}

fn catboost_calc_hash(a: u64, b: u64) -> u64 {
    const MAGIC_MULT: u64 = 0x4906ba494954cb65;
    MAGIC_MULT.wrapping_mul(a.wrapping_add(MAGIC_MULT.wrapping_mul(b)))
}

#[allow(unused_variables, dead_code)]
fn calculate_ctrs(float_features: &[f32], cat_features: &[&str]) -> Vec<f64> {
    vec![
        {
            let mut combined_hash = 0u64;
            {
                let cat_idx = 2usize;
                let cat_val = cat_features[cat_idx];
                let h32 = city_hash64(cat_val.as_bytes()) as u32;
                combined_hash = catboost_calc_hash(combined_hash, (h32 as i32) as i64 as u64);
            }
            {
                let hash_map: &[u64] = &[
                    7u64, 3u64, 4u64, 9u64, 5u64, 6u64, 18446744073709551615u64, 1u64, 2u64
                ];
                let stride = 3usize;
                let mut low = 0;
                let mut high = hash_map.len() / stride;
                let mut found_idx = None;
                while low < high {
                    let mid = low + (high - low) / 2;
                    let h = hash_map[mid * stride];
                    if h < combined_hash {
                        low = mid + 1;
                    } else if h > combined_hash {
                        high = mid;
                    } else {
                        found_idx = Some(mid);
                        break;
                    }
                }

                let (count_in_class, total_count) = if let Some(idx) = found_idx {
                    let base = idx * stride;
                    if stride == 3 {
                        (
                            hash_map[base + 2] as f64, (hash_map[base + 1] + hash_map[base + 2]) as f64
                        )
                    } else {
                        (0.0, 4i64 as f64)
                    }
                } else {
                    (0.0, 4i64 as f64)
                };

                let ctr_val = (count_in_class + 0.5f64) / (total_count + 1f64);
                (ctr_val + 0f64) * 15f64
            }
        }
    ]
}

pub struct Model;

#[allow(unused_variables, dead_code)]
impl Model {
    pub const N_CLASSES: usize = 1;

    pub fn predict(&self, features: &[f32]) -> f32 {
        self.predict_internal(features, &[])
    }

    pub fn predict_cat(&self, float_features: &[f32], cat_features: &[&str]) -> f32 {
        let ctrs = calculate_ctrs(float_features, cat_features);
        self.predict_internal(float_features, &ctrs)
    }

    pub fn predict_batch(&self, features: &[f32], n_features: usize, out: &mut [f32]) {
        for (i, row) in features.chunks_exact(n_features).enumerate() {
            out[i] = self.predict(row);
        }
    }

    fn predict_internal(&self, features: &[f32], ctrs: &[f64]) -> f32 {
        let raw: f64 = 0f64 + Self::tree_0(features, ctrs) * 1f64;
        (1.0f64 / (1.0f64 + (-raw).exp())) as f32
    }

    #[allow(unused_variables)]
    fn tree_0(features: &[f32], ctrs: &[f64]) -> f64 {
        let index = 0usize
            | if {
                let val = features[0usize];
                ctrs[0usize] >= (7.5f32 as f64)
            } {
                1usize
            } else {
                0
            };
        const LEAVES: [f64; 2usize] = [-1.5f64, 2.5f64];
        LEAVES[index]
    }
}
"#;

/// A source without its white space and without the attributes that change nothing.
fn squeezed(source: &str) -> String {
    let text: String = source.chars().filter(|c| !c.is_whitespace()).collect();
    text.replace("#[inline(always)]", "")
        .replace("#[doc=r\"Auto-generatedbybonsai.\"]", "")
        .replace("#[doc=r\"Auto-generatedbybonsai(arraylayout).\"]", "")
        .replace("#[doc=r\"Donoteditmanually.\"]", "")
}

/// Holds a generated source against the one that is compiled into this file.
fn assert_generated(code: &str) {
    let generated = squeezed(code);
    let compiled = squeezed(SOURCE);
    let same = generated.chars().zip(compiled.chars()).take_while(|(a, b)| a == b).count();
    let near = |text: &str| text.chars().skip(same.saturating_sub(40)).take(120).collect::<String>();
    assert_eq!(near(&generated), near(&compiled));
    assert_eq!(generated, compiled);
}

const CTR_JSON: &str = r#"{
  "model_info": {"params": {"loss_function": {"type": "Logloss"}}},
  "features_info": {"ctrs": [{
    "identifier": "ctr-a",
    "elements": [{"cat_feature_index": 2, "combination_element": "cat_feature_value"}],
    "prior_numerator": 0.5, "prior_denomerator": 1, "scale": 15, "shift": 0
  }]},
  "ctr_data": {"ctr-a": {
    "hash_stride": 3,
    "hash_map": ["18446744073709551615", 1, 2, 7, 3, 4, "9", 5, 6],
    "counter_denominator": 4
  }},
  "oblivious_trees": [{
    "splits": [{"split_type": "OnlineCtr", "split_index": 0, "border": 7.5}],
    "leaf_values": [-1.5, 2.5]
  }]
}"#;

#[test]
fn generated_counters_run() {
    let model = parse_json(&json::parse(CTR_JSON).unwrap()).unwrap();
    assert_generated(&generate_with_layout(&model.forest, Layout::IfElse).unwrap());
    // A category that is in no table counts 0 of 4: (0 + 0.5) / (4 + 1) * 15 < 7.5.
    let value = Model.predict_cat(&[0.0], &["", "", "red"]);
    assert_eq!(value, (1.0f64 / (1.0f64 + (1.5f64).exp())) as f32);
    // The counter goes to the second leaf from the border on.
    assert_eq!(Model::tree_0(&[0.0], &[7.5]), 2.5);
    assert_eq!(Model::tree_0(&[0.0], &[7.4]), -1.5);
    for length in [0, 3, 7, 12, 20, 40, 70, 200] {
        let name = "x".repeat(length);
        assert_eq!(calculate_ctrs(&[], &["", "", &name]), vec![1.5]);
    }
}
