//! The fixed parts of generated source, token by token.
use vstd::prelude::*;

verus! {

/// The sum of a score in the array layout.
pub const ACC_START: &'static str = "let mut acc : f64 = ";

pub const ACC_LOOP: &'static str = " ; for t in 0 .. ";

pub const ACC_END: &'static str = " { acc += eval_tree (ROOTS [t] , features) * WEIGHTS [t] ; } let raw = acc ;";

/// The average of a score in the array layout.
pub const MEAN_LOOP: &'static str = "let mut acc : f64 = 0.0 ; for t in 0 .. ";

pub const MEAN_DIVIDE: &'static str = " { acc += eval_tree (ROOTS [t] , features) ; } let raw = acc / ";

pub const MEAN_END: &'static str = " ;";

/// The array layout of a model with one output, up to its score.
pub const ARRAY_SCALAR_OPEN: &'static str = "# [doc = r\" Auto-generated by bonsai (array layout).\"] # [doc = r\" Do not edit manually.\"] pub struct Model ; # [allow (dead_code)] impl Model { pub const N_CLASSES : usize = 1 ; pub fn predict (& self , features : & [f32]) -> f32 { ";

/// The rest of the array layout of a model with one output, up to the data.
pub const ARRAY_SCALAR_CLOSE: &'static str = " } pub fn predict_batch (& self , features : & [f32] , n_features : usize , out : & mut [f32]) { for (i , row) in features . chunks_exact (n_features) . enumerate () { out [i] = self . predict (row) ; } } } ";

/// The start of the static array `FEAT`, up to its length.
pub const DATA_FEAT: &'static str = "static FEAT : [u32 ; ";

/// The start of the static array `THR`, up to its length.
pub const DATA_THR: &'static str = " static THR : [f32 ; ";

/// The start of the static array `FLAGS`, up to its length.
pub const DATA_FLAGS: &'static str = " static FLAGS : [u8 ; ";

/// The start of the static array `LEFT`, up to its length.
pub const DATA_LEFT: &'static str = " static LEFT : [i32 ; ";

/// The start of the static array `RIGHT`, up to its length.
pub const DATA_RIGHT: &'static str = " static RIGHT : [i32 ; ";

/// The start of the static array `LEAVES`, up to its length.
pub const DATA_LEAVES: &'static str = " static LEAVES : [f64 ; ";

/// The start of the static array `ROOTS`, up to its length.
pub const DATA_ROOTS: &'static str = " static ROOTS : [i32 ; ";

/// The start of the static array `WEIGHTS`, up to its length.
pub const DATA_WEIGHTS: &'static str = " static WEIGHTS : [f64 ; ";

/// Between the length of a static array and its items.
pub const DATA_LENGTH: &'static str = "] = [";

/// The end of a static array.
pub const DATA_END: &'static str = "] ;";

/// The walker over the arrays.
pub const WALKER_MISSING: &'static str = " # [inline (always)] fn eval_tree (mut idx : i32 , features : & [f32]) -> f64 { loop { if idx < 0 { return LEAVES [(! idx) as usize] ; } let i = idx as usize ; let val = features [FEAT [i] as usize] ; let flags = FLAGS [i] ; let go_left = if val . is_nan () { (flags & ";

pub const WALKER_NA: &'static str = ") != 0 } else if (flags & ";

pub const WALKER_OP: &'static str = ") != 0 { true } else { let thr = THR [i] ; match flags & ";

pub const WALKER_END: &'static str = " { 0 => val < thr , 1 => val <= thr , 2 => val > thr , 3 => val >= thr , 4 => val == thr , _ => val != thr , } } ; idx = if go_left { LEFT [i] } else { RIGHT [i] } ; } }";

/// The array layout of a model with several outputs, up to their number.
pub const ARRAY_SOFTMAX_OPEN: &'static str = "# [doc = r\" Auto-generated by bonsai (array layout).\"] # [doc = r\" Do not edit manually.\"] pub struct Model ; # [allow (dead_code)] impl Model { pub const N_CLASSES : usize = ";

/// The head of the softmax method, up to the scores.
pub const PROBA_OPEN: &'static str = " ; pub fn predict_proba (& self , features : & [f32]) -> Vec < f32 > { ";

/// The head of the softmax method without allocation, up to the scores.
pub const PROBA_INTO_OPEN: &'static str = " ; pub fn predict_proba_into (& self , features : & [f32] , out : & mut [f32]) { ";

/// The raw scores of the array layout.
pub const RAW_CLASSES: &'static str = "let mut raw : [f64 ; ";

pub const RAW_START: &'static str = "] = ";

pub const RAW_LOOP: &'static str = " ; for t in 0 .. ";

pub const RAW_CLASS: &'static str = " { raw [t % ";

pub const RAW_ADD: &'static str = "] += eval_tree (ROOTS [t] , features) * WEIGHTS [t] ; }";

/// A zero score per class.
pub const ZEROS_OPEN: &'static str = "[0.0f64 ; ";

pub const ZEROS_CLOSE: &'static str = "]";

/// The division of averaged scores.
pub const RAW_DIVIDE: &'static str = " for r in raw . iter_mut () { * r /= ";

pub const RAW_DIVIDE_END: &'static str = " ; }";

/// The softmax of the array layout.
pub const SOFT_MAX: &'static str = " let mut max_raw = raw [0] ; for r in raw . iter () . skip (1) { if * r > max_raw { max_raw = * r ; } } let mut e = [0.0f64 ; ";

pub const SOFT_LOOP: &'static str = "] ; let mut sum_e = 0.0f64 ; for j in 0 .. ";

pub const SOFT_EXP: &'static str = " { e [j] = ";

pub const SOFT_END: &'static str = " ; sum_e += e [j] ; }";

/// What the array layout takes the exponential of.
pub const SOFT_DIFFERENCE: &'static str = "raw [j] - max_raw";

/// The probabilities of the array layout.
pub const OUT_CAPACITY: &'static str = " let mut out = Vec :: with_capacity (";

pub const OUT_LOOP: &'static str = ") ; for j in 0 .. ";

pub const OUT_PUSH: &'static str = " { out . push ((e [j] / sum_e) as f32) ; } out } pub fn predict_batch (& self , features : & [f32] , n_features : usize , out : & mut [f32]) { let n_classes = ";

pub const OUT_BATCH: &'static str = " ; for (i , row) in features . chunks_exact (n_features) . enumerate () { let probs = self . predict_proba (row) ; for (j , prob) in probs . into_iter () . enumerate () { out [i * n_classes + j] = prob ; } } } } ";

/// The probabilities of the array layout without allocation.
pub const INTO_LOOP: &'static str = " for j in 0 .. ";

pub const INTO_STORE: &'static str = " { out [j] = (e [j] / sum_e) as f32 ; } } pub fn predict_batch (& self , features : & [f32] , n_features : usize , out : & mut [f32]) { let n_classes = ";

pub const INTO_BATCH: &'static str = " ; for (i , row) in features . chunks_exact (n_features) . enumerate () { self . predict_proba_into (row , & mut out [i * n_classes .. (i + 1) * n_classes]) ; } } } ";

/// The start of a list.
pub const LIST_OPEN: &'static str = "[";

/// The end of a list.
pub const LIST_CLOSE: &'static str = "]";

/// What stands between two tokens.
pub const SPACE: &'static str = " ";

/// The exponential of an expression.
pub const EXP_OPEN: &'static str = "(";

pub const EXP_CLOSE: &'static str = ") . exp ()";

/// The exponential of an expression without the standard library.
pub const LIBM_OPEN: &'static str = "libm :: exp (";

pub const LIBM_CLOSE: &'static str = ")";

/// The identity transform.
pub const POST_IDENTITY: &'static str = "raw as f32";

/// The logistic transform, around the exponential.
pub const POST_LOGIT_OPEN: &'static str = "(1.0f64 / (1.0f64 + ";

pub const POST_LOGIT_CLOSE: &'static str = ")) as f32";

/// What the logistic transform takes the exponential of.
pub const NEGATED_RAW: &'static str = "- raw";

/// What the logarithmic link takes the exponential of.
pub const RAW: &'static str = "raw";

/// The end of the logarithmic link: what exceeds the range is clamped.
pub const POST_LOG_CLOSE: &'static str = " . min (f32 :: MAX as f64) as f32";

/// The exponential of the score.
pub const RAW_EXP: &'static str = "raw . exp ()";

/// The comment at the head of the if/else layout.
pub const DOC: &'static str = "# [doc = r\" Auto-generated by bonsai.\"] # [doc = r\" Do not edit manually.\"]";

/// The set helper.
pub const BITSET_HELPER: &'static str = " fn bitset_contains (bitoff : u16 , nbits : u32 , data : & [u8] , idx : i32) -> bool { let idx = idx - bitoff as i32 ; if idx < 0 || idx >= nbits as i32 { return false ; } let byte_idx = (idx >> 3) as usize ; let bit_idx = (idx & 7) as u8 ; (data [byte_idx] & (1 << bit_idx)) != 0 }";

/// What the compiler is asked not to warn of.
pub const ALLOW: &'static str = " # [allow (unused_variables , dead_code , non_snake_case)]";

/// The hash of CatBoost.
pub const CITY_HASH: &'static str = " const K0 : u64 = 0xc3a5c85c97cb3127 ; const K1 : u64 = 0xb492b66fbe98f273 ; const K2 : u64 = 0x9ae16a3b2f90404f ; const K3 : u64 = 0xc949d7c7509e6557 ; # [inline (always)] fn rotate (val : u64 , shift : u32) -> u64 { if shift == 0 { val } else { (val >> shift) | (val << (64 - shift)) } } # [inline (always)] fn shift_mix (val : u64) -> u64 { val ^ (val >> 47) } # [inline (always)] fn hash_len16 (u : u64 , v : u64) -> u64 { const K_MUL : u64 = 0x9ddfea08eb382d69 ; let mut a = (u ^ v) . wrapping_mul (K_MUL) ; a ^= a >> 47 ; let mut b = (v ^ a) . wrapping_mul (K_MUL) ; b ^= b >> 47 ; b . wrapping_mul (K_MUL) } fn fetch64 (s : & [u8] , off : usize) -> u64 { let mut b = [0u8 ; 8] ; b . copy_from_slice (& s [off .. off + 8]) ; u64 :: from_le_bytes (b) } fn fetch32 (s : & [u8] , off : usize) -> u32 { let mut b = [0u8 ; 4] ; b . copy_from_slice (& s [off .. off + 4]) ; u32 :: from_le_bytes (b) } fn city_hash64_len0to16 (s : & [u8]) -> u64 { let len = s . len () ; if len > 8 { let a = fetch64 (s , 0) ; let b = fetch64 (s , len - 8) ; return hash_len16 (a , rotate (b . wrapping_add (len as u64) , len as u32) . wrapping_add (b)) ^ b ; } if len >= 4 { let a = fetch32 (s , 0) as u64 ; let b = fetch32 (s , len - 4) as u64 ; return hash_len16 ((len as u64) . wrapping_add (a << 3) , b) ; } if len > 0 { let a = s [0] as u32 ; let b = s [len >> 1] as u32 ; let c = s [len - 1] as u32 ; let y = a . wrapping_add (b << 8) ; let z = (len as u32) . wrapping_add (c << 2) ; return shift_mix ((y as u64) . wrapping_mul (K2) ^ (z as u64) . wrapping_mul (K3)) . wrapping_mul (K2) ; } K2 } fn city_hash64_len17to32 (s : & [u8]) -> u64 { let len = s . len () ; let a = fetch64 (s , 0) . wrapping_mul (K1) ; let b = fetch64 (s , 8) ; let c = fetch64 (s , len - 8) . wrapping_mul (K2) ; let d = fetch64 (s , len - 16) . wrapping_mul (K0) ; hash_len16 (rotate (a . wrapping_sub (b) , 43) . wrapping_add (rotate (c , 30)) . wrapping_add (d) , a . wrapping_add (rotate (b ^ K3 , 20)) . wrapping_sub (c) . wrapping_add (len as u64) ,) } fn city_hash64_len33to64 (s : & [u8]) -> u64 { let len = s . len () ; let z = fetch64 (s , 24) ; let mut a = fetch64 (s , 0) . wrapping_add ((len as u64) . wrapping_add (fetch64 (s , len - 16)) . wrapping_mul (K0)) ; let mut b = rotate (a . wrapping_add (z) , 52) ; let mut c = rotate (a , 37) ; a = a . wrapping_add (fetch64 (s , 8)) ; c = c . wrapping_add (rotate (a , 7)) ; a = a . wrapping_add (fetch64 (s , 16)) ; let vf = a . wrapping_add (z) ; let vs = b . wrapping_add (rotate (a , 31)) . wrapping_add (c) ; a = fetch64 (s , 16) . wrapping_add (fetch64 (s , 24)) ; let z2 = fetch64 (s , len - 8) ; a = rotate (a . wrapping_add (z2) , 52) ; b = rotate (a , 37) ; a = a . wrapping_add (fetch64 (s , len - 24)) ; b = b . wrapping_add (rotate (a , 11)) ; a = a . wrapping_add (fetch64 (s , len - 32)) ; let wf = a . wrapping_add (z2) ; let ws = b . wrapping_add (fetch64 (s , len - 16)) ; let r = shift_mix (vf . wrapping_add (ws) . wrapping_mul (K2) . wrapping_add (wf . wrapping_add (vs) . wrapping_mul (K0))) ; shift_mix (r . wrapping_mul (K0) . wrapping_add (vs)) . wrapping_mul (K2) } fn weak_hash32 (s : & [u8] , off : usize , mut a : u64 , mut b : u64) -> (u64 , u64) { let w = fetch64 (s , off) ; let x = fetch64 (s , off + 8) ; let y = fetch64 (s , off + 16) ; let z = fetch64 (s , off + 24) ; a = a . wrapping_add (w) ; b = rotate (b . wrapping_add (a) . wrapping_add (z) , 21) ; let c = a ; a = a . wrapping_add (x) . wrapping_add (y) ; b = b . wrapping_add (rotate (a , 44)) ; (a . wrapping_add (z) , b . wrapping_add (c)) } # [inline (always)] fn city_hash64 (s : & [u8]) -> u64 { let len = s . len () ; if len <= 16 { return city_hash64_len0to16 (s) ; } if len <= 32 { return city_hash64_len17to32 (s) ; } if len <= 64 { return city_hash64_len33to64 (s) ; } let mut x = fetch64 (s , len - 40) ; let mut y = fetch64 (s , len - 16) . wrapping_add (fetch64 (s , len - 56)) ; let mut z = hash_len16 (fetch64 (s , len - 48) . wrapping_add (len as u64) , fetch64 (s , len - 24)) ; let mut v = weak_hash32 (s , len - 64 , len as u64 , z) ; let mut w = weak_hash32 (s , len - 32 , y . wrapping_add (K1) , x) ; x = x . wrapping_mul (K1) . wrapping_add (fetch64 (s , 0)) ; let mut pos = 0usize ; let mut tail = (len - 1) & ! 63usize ; loop { x = rotate (x . wrapping_add (y) . wrapping_add (v . 0) . wrapping_add (fetch64 (s , pos + 8)) , 37) . wrapping_mul (K1) ; y = rotate (y . wrapping_add (v . 1) . wrapping_add (fetch64 (s , pos + 48)) , 42) . wrapping_mul (K1) ; x ^= w . 1 ; y = y . wrapping_add (v . 0) . wrapping_add (fetch64 (s , pos + 40)) ; z = rotate (z . wrapping_add (w . 0) , 33) . wrapping_mul (K1) ; v = weak_hash32 (s , pos , v . 1 . wrapping_mul (K1) , x . wrapping_add (w . 0)) ; w = weak_hash32 (s , pos + 32 , z . wrapping_add (w . 1) , y . wrapping_add (fetch64 (s , pos + 16))) ; let tmp = z ; z = x ; x = tmp ; pos += 64 ; tail -= 64 ; if tail == 0 { break ; } } hash_len16 (hash_len16 (v . 0 , w . 0) . wrapping_add (shift_mix (y) . wrapping_mul (K1)) . wrapping_add (z) , hash_len16 (v . 1 , w . 1) . wrapping_add (x)) } # [inline (always)] fn catboost_calc_hash (a : u64 , b : u64) -> u64 { const MAGIC_MULT : u64 = 0x4906ba494954cb65 ; MAGIC_MULT . wrapping_mul (a . wrapping_add (MAGIC_MULT . wrapping_mul (b))) }";

/// The counter function, up to the counters.
pub const CTRS_OPEN: &'static str = " # [allow (unused_variables , dead_code)] fn calculate_ctrs (float_features : & [f32] , cat_features : & [& str]) -> Vec < f64 > { vec ! [";

pub const CTRS_CLOSE: &'static str = "] }";

/// The hash of the categories that a counter is for.
pub const CTR_OPEN: &'static str = "{ let mut combined_hash = 0u64 ; ";

/// One category of the hash.
pub const CTR_ELEMENT: &'static str = "{ let cat_idx = ";

pub const CTR_ELEMENT_END: &'static str = " ; let cat_val = cat_features [cat_idx] ; let h32 = city_hash64 (cat_val . as_bytes ()) as u32 ; combined_hash = catboost_calc_hash (combined_hash , (h32 as i32) as i64 as u64) ; } ";

/// The table of a counter and the search in it.
pub const TABLE_OPEN: &'static str = "{ let hash_map : & [u64] = & [";

pub const TABLE_STRIDE: &'static str = "] ; let stride = ";

pub const TABLE_SEARCH: &'static str = " ; let mut low = 0 ; let mut high = hash_map . len () / stride ; let mut found_idx = None ; while low < high { let mid = low + (high - low) / 2 ; let h = hash_map [mid * stride] ; if h < combined_hash { low = mid + 1 ; } else if h > combined_hash { high = mid ; } else { found_idx = Some (mid) ; break ; } } let (count_in_class , total_count) = if let Some (idx) = found_idx { let base = idx * stride ; if stride == 3 { (hash_map [base + 2] as f64 , (hash_map [base + 1] + hash_map [base + 2]) as f64) } else { (0.0 , ";

pub const TABLE_MISS: &'static str = " as f64) } } else { (0.0 , ";

pub const TABLE_PRIOR: &'static str = " as f64) } ; let ctr_val = (count_in_class + ";

pub const TABLE_TOTAL: &'static str = ") / (total_count + ";

pub const TABLE_SHIFT: &'static str = ") ; (ctr_val + ";

pub const TABLE_SCALE: &'static str = ") * ";

pub const TABLE_CLOSE: &'static str = " } }";

/// The head of a tree function, up to its number.
pub const TREE_FN: &'static str = " # [inline (always)] # [allow (unused_variables)] fn ";

/// What the name of a tree function starts with.
pub const TREE_NAME: &'static str = "tree_";

/// The head of a tree function, up to its body.
pub const TREE_BODY: &'static str = " (features : & [f32] , ctrs : & [f64]) -> f64 { ";

/// The end of a block.
pub const BLOCK_END: &'static str = " }";

/// A branch on a feature.
pub const BRANCH: &'static str = "{ let val = features [";

pub const BRANCH_IF: &'static str = "] ; if ";

pub const BRANCH_LEFT: &'static str = " { ";

pub const BRANCH_ELSE: &'static str = " } else { ";

pub const BRANCH_END: &'static str = " } }";

/// The test that a value is there.
pub const PRESENT: &'static str = "! val . is_nan ()";

/// What lets NaN pass.
pub const OR_MISSING: &'static str = "val . is_nan () || ";

/// What stops NaN.
pub const AND_PRESENT: &'static str = "! val . is_nan () && ";

/// An opening bracket.
pub const OPEN: &'static str = "(";

/// A closing bracket.
pub const CLOSE: &'static str = ")";

/// `<` after the value.
pub const VAL_LT: &'static str = "val < ";

/// `<=` after the value.
pub const VAL_LE: &'static str = "val <= ";

/// `>` after the value.
pub const VAL_GT: &'static str = "val > ";

/// `>=` after the value.
pub const VAL_GE: &'static str = "val >= ";

/// `==` after the value.
pub const VAL_EQ: &'static str = "val == ";

/// `!=` after the value.
pub const VAL_NE: &'static str = "val != ";

/// The call of the set helper.
pub const SET_CALL: &'static str = "! bitset_contains (";

pub const SET_SIZE: &'static str = " , ";

pub const SET_DATA: &'static str = " , & [";

pub const SET_END: &'static str = "] , val as i32)";

/// The comparison of a counter.
pub const COUNTER: &'static str = "ctrs [";

pub const COUNTER_AT_LEAST: &'static str = "] >= (";

pub const COUNTER_END: &'static str = " as f64)";

/// The lookup of a leaf, up to the tests.
pub const INDEX: &'static str = "let index = 0usize";

/// One test of the lookup.
pub const TEST: &'static str = " | if { let val = features [";

pub const TEST_CONDITION: &'static str = "] ; ";

pub const TEST_BIT: &'static str = " } { ";

pub const TEST_END: &'static str = " } else { 0 }";

/// The table of leaves.
pub const LEAVES: &'static str = " ; const LEAVES : [f64 ; ";

pub const LEAVES_ITEMS: &'static str = "] = [";

pub const LEAVES_END: &'static str = "] ; LEAVES [index] }";

/// The if/else layout of a model with one output, up to its methods.
pub const SCALAR_MODEL: &'static str = " pub struct Model ; # [allow (unused_variables , dead_code)] impl Model { pub const N_CLASSES : usize = 1 ; pub fn predict (& self , features : & [f32]) -> f32 { self . predict_internal (features , & []) }";

/// The prediction from categories.
pub const PREDICT_CAT: &'static str = " pub fn predict_cat (& self , float_features : & [f32] , cat_features : & [& str]) -> f32 { let ctrs = calculate_ctrs (float_features , cat_features) ; self . predict_internal (float_features , & ctrs) }";

/// The rest of the methods, up to the score.
pub const SCALAR_INTERNAL: &'static str = " pub fn predict_batch (& self , features : & [f32] , n_features : usize , out : & mut [f32]) { for (i , row) in features . chunks_exact (n_features) . enumerate () { out [i] = self . predict (row) ; } } fn predict_internal (& self , features : & [f32] , ctrs : & [f64]) -> f32 { let raw : f64 = ";

/// The end of a statement.
pub const STATEMENT_END: &'static str = " ; ";

/// The call of a tree function, up to its number.
pub const CALL: &'static str = "Self :: tree_";

/// The arguments of a tree function.
pub const CALL_ARGUMENTS: &'static str = " (features , ctrs)";

/// Between the call of a tree function and its weight.
pub const TIMES: &'static str = " * ";

/// Between a bracketed sum and its divisor.
pub const DIVIDED: &'static str = ") / ";

/// The if/else layout of a model with several outputs, up to their number.
pub const SOFTMAX_MODEL: &'static str = " pub struct Model ; # [allow (unused_variables , dead_code)] impl Model { pub const N_CLASSES : usize = ";

/// The softmax methods.
pub const SOFTMAX_PROBA: &'static str = " ; pub fn predict_proba (& self , features : & [f32]) -> Vec < f32 > { self . predict_proba_internal (features , & []) }";

/// The probabilities from categories.
pub const PREDICT_CAT_PROBA: &'static str = " pub fn predict_cat_proba (& self , float_features : & [f32] , cat_features : & [& str]) -> Vec < f32 > { let ctrs = calculate_ctrs (float_features , cat_features) ; self . predict_proba_internal (float_features , & ctrs) }";

/// The batch method, around the number of outputs.
pub const SOFTMAX_BATCH: &'static str = " pub fn predict_batch (& self , features : & [f32] , n_features : usize , out : & mut [f32]) { let n_classes = ";

pub const SOFTMAX_INTERNAL: &'static str = " ; for (i , row) in features . chunks_exact (n_features) . enumerate () { let probs = self . predict_proba (row) ; for (j , prob) in probs . into_iter () . enumerate () { out [i * n_classes + j] = prob ; } } } fn predict_proba_internal (& self , features : & [f32] , ctrs : & [f64]) -> Vec < f32 > { ";

/// The softmax methods without allocation.
pub const SOFTMAX_INTO: &'static str = " ; pub fn predict_proba_into (& self , features : & [f32] , out : & mut [f32]) { self . predict_proba_internal (features , & [] , out) } pub fn predict_batch (& self , features : & [f32] , n_features : usize , out : & mut [f32]) { let n_classes = ";

pub const SOFTMAX_INTO_INTERNAL: &'static str = " ; for (i , row) in features . chunks_exact (n_features) . enumerate () { self . predict_proba_into (row , & mut out [i * n_classes .. (i + 1) * n_classes]) ; } } fn predict_proba_internal (& self , features : & [f32] , ctrs : & [f64] , out : & mut [f32]) { ";

/// The start of a declaration.
pub const LET: &'static str = "let ";

/// Between the name of a variable and its value.
pub const LET_TYPE: &'static str = " : f64 = ";

/// The name of a class score, up to its number.
pub const RAW_OF: &'static str = "raw_";

/// The name of the greatest score.
pub const MAX_NAME: &'static str = "max_raw";

/// The name of an exponential, up to its number.
pub const EXP_OF: &'static str = "e_";

/// The name of the sum of the exponentials.
pub const SUM_NAME: &'static str = "sum_e";

/// One more variable in the greatest.
pub const MAX_WITH: &'static str = " . max (";

/// Between two variables of a difference.
pub const LESS: &'static str = " - ";

/// Between two variables of a quotient.
pub const OVER: &'static str = " / ";

/// The end of a probability.
pub const AS_SINGLE: &'static str = ") as f32";

/// The start of the list of probabilities.
pub const VEC_OPEN: &'static str = "vec ! [";

/// The end of the list of probabilities and of its method.
pub const VEC_CLOSE: &'static str = "] }";

/// The start of the assignment of a probability.
pub const OUT_AT: &'static str = "out [";

/// A closing brace.
pub const BRACE: &'static str = "}";

/// Between the place of a probability and its value.
pub const OUT_IS: &'static str = "] = ";

} // verus!
