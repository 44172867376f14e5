use bonsai::ir::{
    AggregationKind, Forest, MissingDirection, Node, Operator, PostTransform, SplitKind, Tree,
};
use bonsai::number::{F32, F64};

fn f(x: f32) -> F32 {
    F32 { bits: x.to_bits() }
}

fn d(x: f64) -> F64 {
    F64 { bits: x.to_bits() }
}

#[test]
fn test_oblivious_tree_detection() {
    let split_kind = SplitKind::Numeric {
        threshold: f(0.5),
        operator: Operator::GreaterThan,
    };
    // Depth 2 oblivious tree
    let root = Node::Split {
        feature_idx: 1,
        split: split_kind.clone(),
        left_child: Box::new(Node::Split {
            feature_idx: 0,
            split: split_kind.clone(),
            left_child: Box::new(Node::Leaf { value: d(3.0) }),
            right_child: Box::new(Node::Leaf { value: d(2.0) }),
            missing_direction: MissingDirection::Unspecified,
        }),
        right_child: Box::new(Node::Split {
            feature_idx: 0,
            split: split_kind.clone(),
            left_child: Box::new(Node::Leaf { value: d(1.0) }),
            right_child: Box::new(Node::Leaf { value: d(0.0) }),
            missing_direction: MissingDirection::Unspecified,
        }),
        missing_direction: MissingDirection::Unspecified,
    };

    let splits = root.get_oblivious_splits().expect("Should be oblivious");
    assert_eq!(splits.len(), 2);
    assert_eq!(splits[0].0, 1); // depth 0: root
    assert_eq!(splits[1].0, 0); // depth 1: children

    let mut leaves = Vec::new();
    root.collect_leaves(&mut leaves);
    assert_eq!(leaves, vec![d(0.0), d(1.0), d(2.0), d(3.0)]);
}

#[test]
fn test_simple_leaf_tree() {
    let tree = Tree {
        root: Node::Leaf { value: d(0.42) },
        weight: d(1.0),
    };

    match tree.root {
        Node::Leaf { value } => assert_eq!(value, d(0.42)),
        _ => panic!("Expected leaf node"),
    }
}

#[test]
fn test_numeric_split_node() {
    let tree = Tree {
        root: Node::Split {
            feature_idx: 0,
            split: SplitKind::Numeric {
                threshold: f(5.0),
                operator: Operator::LessThan,
            },
            left_child: Box::new(Node::Leaf { value: d(1.0) }),
            right_child: Box::new(Node::Leaf { value: d(-1.0) }),
            missing_direction: MissingDirection::Right,
        },
        weight: d(1.0),
    };

    match tree.root {
        Node::Split {
            feature_idx,
            split,
            missing_direction,
            ..
        } => {
            assert_eq!(feature_idx, 0);
            assert_eq!(missing_direction, MissingDirection::Right);
            match split {
                SplitKind::Numeric {
                    threshold,
                    operator,
                } => {
                    assert_eq!(threshold, f(5.0));
                    assert!(matches!(operator, Operator::LessThan));
                }
                _ => panic!("Expected numeric split"),
            }
        }
        _ => panic!("Expected split node"),
    }
}

#[test]
fn test_categorical_split_node() {
    // Test bitset encoding: bits 0,1,3 set (representing categories 0,1,3)
    // Binary: 00001011 = 0x0B
    let bitset_data = vec![0x0B];

    let tree = Tree {
        root: Node::Split {
            feature_idx: 2,
            split: SplitKind::Categorical {
                bitoff: 0,
                nbits: 4,
                data: bitset_data.clone(),
            },
            left_child: Box::new(Node::Leaf { value: d(10.0) }),
            right_child: Box::new(Node::Leaf { value: d(-10.0) }),
            missing_direction: MissingDirection::Right,
        },
        weight: d(1.0),
    };

    match tree.root {
        Node::Split {
            feature_idx, split, ..
        } => {
            assert_eq!(feature_idx, 2);
            match split {
                SplitKind::Categorical {
                    bitoff,
                    nbits,
                    data,
                } => {
                    assert_eq!(bitoff, 0);
                    assert_eq!(nbits, 4);
                    assert_eq!(data, bitset_data);
                }
                _ => panic!("Expected categorical split"),
            }
        }
        _ => panic!("Expected split node"),
    }
}

#[test]
fn test_missing_direction_variants() {
    let directions = [
        MissingDirection::Left,
        MissingDirection::Right,
        MissingDirection::NaVsRest,
        MissingDirection::Unspecified,
    ];

    // Test that all variants are distinct
    for (i, dir1) in directions.iter().enumerate() {
        for (j, dir2) in directions.iter().enumerate() {
            if i == j {
                assert_eq!(dir1, dir2);
            } else {
                assert_ne!(dir1, dir2);
            }
        }
    }
}

#[test]
fn test_forest_regression_identity() {
    let forest = Forest {
        trees: vec![Tree {
            root: Node::Leaf { value: d(1.5) },
            weight: d(1.0),
        }],
        base_score: d(0.5),
        base_scores: vec![],
        aggregation: AggregationKind::Sum,
        post_transform: PostTransform::Identity,
        catboost_metadata: None,
    };

    assert_eq!(forest.trees.len(), 1);
    assert_eq!(forest.base_score, d(0.5));
    assert_eq!(forest.aggregation, AggregationKind::Sum);
    assert_eq!(forest.post_transform, PostTransform::Identity);
}

#[test]
fn test_forest_classification_logit() {
    let forest = Forest {
        trees: vec![
            Tree {
                root: Node::Leaf { value: d(0.1) },
                weight: d(1.0),
            },
            Tree {
                root: Node::Leaf { value: d(-0.1) },
                weight: d(1.0),
            },
        ],
        base_score: d(0.0),
        base_scores: vec![],
        aggregation: AggregationKind::Sum,
        post_transform: PostTransform::Logit,
        catboost_metadata: None,
    };

    assert_eq!(forest.trees.len(), 2);
    assert_eq!(forest.post_transform, PostTransform::Logit);
}

#[test]
fn test_empty_forest() {
    let forest = Forest {
        trees: vec![],
        base_score: d(0.0),
        base_scores: vec![],
        aggregation: AggregationKind::Sum,
        post_transform: PostTransform::Identity,
        catboost_metadata: None,
    };

    assert_eq!(forest.trees.len(), 0);
}

#[test]
fn test_operator_variants() {
    let operators = [
        Operator::LessThan,
        Operator::LessOrEqual,
        Operator::GreaterThan,
        Operator::GreaterOrEqual,
        Operator::Equal,
        Operator::NotEqual,
    ];

    // Verify all operators are distinct
    for (i, op1) in operators.iter().enumerate() {
        for (j, op2) in operators.iter().enumerate() {
            if i == j {
                assert_eq!(op1, op2);
            } else {
                assert_ne!(op1, op2);
            }
        }
    }
}

#[test]
fn test_deep_tree_structure() {
    // Create a tree with depth 3
    let tree = Tree {
        root: Node::Split {
            feature_idx: 0,
            split: SplitKind::Numeric {
                threshold: f(10.0),
                operator: Operator::LessThan,
            },
            left_child: Box::new(Node::Split {
                feature_idx: 1,
                split: SplitKind::Numeric {
                    threshold: f(5.0),
                    operator: Operator::LessThan,
                },
                left_child: Box::new(Node::Leaf { value: d(1.0) }),
                right_child: Box::new(Node::Leaf { value: d(2.0) }),
                missing_direction: MissingDirection::Left,
            }),
            right_child: Box::new(Node::Split {
                feature_idx: 2,
                split: SplitKind::Numeric {
                    threshold: f(15.0),
                    operator: Operator::GreaterThan,
                },
                left_child: Box::new(Node::Leaf { value: d(3.0) }),
                right_child: Box::new(Node::Leaf { value: d(4.0) }),
                missing_direction: MissingDirection::Right,
            }),
            missing_direction: MissingDirection::Unspecified,
        },
        weight: d(1.0),
    };

    // Verify we can navigate the tree structure
    match &tree.root {
        Node::Split {
            left_child,
            right_child,
            ..
        } => {
            assert!(matches!(**left_child, Node::Split { .. }));
            assert!(matches!(**right_child, Node::Split { .. }));
        }
        _ => panic!("Expected split at root"),
    }
}

#[test]
fn test_categorical_bitset_multiple_bytes() {
    // Test bitset with multiple bytes
    // Represents 16 categories with various bits set
    let bitset_data = vec![0xAA, 0x55]; // Alternating bit pattern

    let split = SplitKind::Categorical {
        bitoff: 0,
        nbits: 16,
        data: bitset_data.clone(),
    };

    match split {
        SplitKind::Categorical {
            bitoff,
            nbits,
            data,
        } => {
            assert_eq!(bitoff, 0);
            assert_eq!(nbits, 16);
            assert_eq!(data.len(), 2);
            assert_eq!(data[0], 0xAA);
            assert_eq!(data[1], 0x55);
        }
        _ => panic!("Expected categorical split"),
    }
}

#[test]
fn test_na_vs_rest_split() {
    // NaVsRest is a special case where split is solely on NaN-ness
    let tree = Tree {
        root: Node::Split {
            feature_idx: 5,
            split: SplitKind::Numeric {
                threshold: f(f32::NAN),
                operator: Operator::LessThan,
            },
            left_child: Box::new(Node::Leaf { value: d(0.0) }),
            right_child: Box::new(Node::Leaf { value: d(1.0) }),
            missing_direction: MissingDirection::NaVsRest,
        },
        weight: d(1.0),
    };

    match tree.root {
        Node::Split {
            split,
            missing_direction,
            ..
        } => {
            assert_eq!(missing_direction, MissingDirection::NaVsRest);
            match split {
                SplitKind::Numeric { threshold, .. } => {
                    assert!(threshold.is_nan());
                }
                _ => panic!("Expected numeric split"),
            }
        }
        _ => panic!("Expected split node"),
    }
}

#[test]
fn test_tree_weights() {
    let trees = [
        Tree {
            root: Node::Leaf { value: d(1.0) },
            weight: d(0.5),
        },
        Tree {
            root: Node::Leaf { value: d(2.0) },
            weight: d(1.5),
        },
        Tree {
            root: Node::Leaf { value: d(3.0) },
            weight: d(2.0),
        },
    ];

    assert_eq!(trees[0].weight, d(0.5));
    assert_eq!(trees[1].weight, d(1.5));
    assert_eq!(trees[2].weight, d(2.0));
}

#[test]
fn test_aggregation_kinds() {
    let sum_forest = Forest {
        trees: vec![],
        base_score: d(0.5),
        base_scores: vec![],
        aggregation: AggregationKind::Sum,
        post_transform: PostTransform::Identity,
        catboost_metadata: None,
    };

    let avg_forest = Forest {
        trees: vec![],
        base_score: d(0.0),
        base_scores: vec![],
        aggregation: AggregationKind::Average,
        post_transform: PostTransform::Identity,
        catboost_metadata: None,
    };

    assert_eq!(sum_forest.aggregation, AggregationKind::Sum);
    assert_eq!(avg_forest.aggregation, AggregationKind::Average);
    assert_ne!(sum_forest.aggregation, avg_forest.aggregation);
}

#[test]
fn test_post_transform_kinds() {
    let transforms = [
        PostTransform::Identity,
        PostTransform::Logit,
        PostTransform::Log,
    ];

    for (i, t1) in transforms.iter().enumerate() {
        for (j, t2) in transforms.iter().enumerate() {
            if i == j {
                assert_eq!(t1, t2);
            } else {
                assert_ne!(t1, t2);
            }
        }
    }
}

#[test]
fn test_categorical_bitset_non_zero_offset() {
    // Test bitset with non-zero offset
    // This represents categories 5-8 (offset=5, 4 bits)
    let split = SplitKind::Categorical {
        bitoff: 5,
        nbits: 4,
        data: vec![0x0F], // All 4 bits set
    };

    match split {
        SplitKind::Categorical {
            bitoff,
            nbits,
            data,
        } => {
            assert_eq!(bitoff, 5);
            assert_eq!(nbits, 4);
            assert_eq!(data.len(), 1);
        }
        _ => panic!("Expected categorical split"),
    }
}

#[test]
fn test_categorical_bitset_ragged_bits() {
    // Test bitset where nbits is not a multiple of 8
    // 10 bits requires 2 bytes (with 6 bits unused in second byte)
    let split = SplitKind::Categorical {
        bitoff: 0,
        nbits: 10,
        data: vec![0xFF, 0x03], // 8 bits + 2 bits = 10 bits total
    };

    match split {
        SplitKind::Categorical {
            bitoff: _,
            nbits,
            data,
        } => {
            assert_eq!(nbits, 10);
            assert_eq!(data.len(), 2);
            assert_eq!(data[0], 0xFF); // All 8 bits in first byte
            assert_eq!(data[1], 0x03); // Only lowest 2 bits in second byte
        }
        _ => panic!("Expected categorical split"),
    }
}

#[test]
fn test_large_feature_indices() {
    // Test with very large feature indices to ensure no overflow
    let tree = Tree {
        root: Node::Split {
            feature_idx: 999_999,
            split: SplitKind::Numeric {
                threshold: f(0.5),
                operator: Operator::LessThan,
            },
            left_child: Box::new(Node::Leaf { value: d(1.0) }),
            right_child: Box::new(Node::Leaf { value: d(-1.0) }),
            missing_direction: MissingDirection::Right,
        },
        weight: d(1.0),
    };

    match tree.root {
        Node::Split { feature_idx, .. } => {
            assert_eq!(feature_idx, 999_999);
        }
        _ => panic!("Expected split node"),
    }
}

#[test]
fn test_deep_tree_leaf_traversal() {
    // Create a deeper tree and verify we can traverse to specific leaves
    let tree = Tree {
        root: Node::Split {
            feature_idx: 0,
            split: SplitKind::Numeric {
                threshold: f(10.0),
                operator: Operator::LessThan,
            },
            left_child: Box::new(Node::Split {
                feature_idx: 1,
                split: SplitKind::Numeric {
                    threshold: f(5.0),
                    operator: Operator::LessThan,
                },
                left_child: Box::new(Node::Split {
                    feature_idx: 2,
                    split: SplitKind::Numeric {
                        threshold: f(2.0),
                        operator: Operator::LessThan,
                    },
                    left_child: Box::new(Node::Leaf { value: d(1.0) }),
                    right_child: Box::new(Node::Leaf { value: d(2.0) }),
                    missing_direction: MissingDirection::Unspecified,
                }),
                right_child: Box::new(Node::Leaf { value: d(3.0) }),
                missing_direction: MissingDirection::Left,
            }),
            right_child: Box::new(Node::Leaf { value: d(4.0) }),
            missing_direction: MissingDirection::Unspecified,
        },
        weight: d(1.0),
    };

    // Navigate: root -> left -> left -> left (should be leaf with value 1.0)
    match &tree.root {
        Node::Split { left_child, .. } => match &**left_child {
            Node::Split { left_child, .. } => match &**left_child {
                Node::Split { left_child, .. } => match &**left_child {
                    Node::Leaf { value } => assert_eq!(*value, d(1.0)),
                    _ => panic!("Expected leaf at depth 3"),
                },
                _ => panic!("Expected split at depth 2"),
            },
            _ => panic!("Expected split at depth 1"),
        },
        _ => panic!("Expected split at root"),
    }
}

#[test]
fn test_forest_with_weighted_trees() {
    // Test a forest with multiple trees of varying weights
    let forest = Forest {
        trees: vec![
            Tree {
                root: Node::Leaf { value: d(1.0) },
                weight: d(0.5),
            },
            Tree {
                root: Node::Leaf { value: d(2.0) },
                weight: d(1.0),
            },
            Tree {
                root: Node::Leaf { value: d(3.0) },
                weight: d(1.5),
            },
        ],
        base_score: d(0.1),
        base_scores: vec![],
        aggregation: AggregationKind::Sum,
        post_transform: PostTransform::Identity,
        catboost_metadata: None,
    };

    assert_eq!(forest.trees.len(), 3);
    assert_eq!(forest.trees[0].weight, d(0.5));
    assert_eq!(forest.trees[1].weight, d(1.0));
    assert_eq!(forest.trees[2].weight, d(1.5));

    // Verify all trees are present
    for tree in &forest.trees {
        match tree.root {
            Node::Leaf { value } => {
                assert!((1.0..=3.0).contains(&f64::from_bits(value.bits)));
            }
            _ => panic!("Expected leaf nodes"),
        }
    }
}

#[test]
fn test_categorical_branch_direction_semantics() {
    // CRITICAL: Test that documents the categorical branch semantics
    // Value IN bitset should go RIGHT, value NOT in bitset should go LEFT
    // This is implemented in the backend as: left_cond = !bitset_contains(...)

    let tree = Tree {
        root: Node::Split {
            feature_idx: 0,
            split: SplitKind::Categorical {
                bitoff: 0,
                nbits: 4,
                data: vec![0x05], // Binary: 00000101, categories 0 and 2 are IN the bitset
            },
            left_child: Box::new(Node::Leaf { value: d(100.0) }), // NOT in bitset
            right_child: Box::new(Node::Leaf { value: d(200.0) }), // IN bitset
            missing_direction: MissingDirection::Right,
        },
        weight: d(1.0),
    };

    match tree.root {
        Node::Split {
            split,
            left_child,
            right_child,
            ..
        } => {
            match split {
                SplitKind::Categorical { data, .. } => {
                    // Verify bitset encoding: bits 0 and 2 set
                    assert_eq!(data[0], 0x05);
                }
                _ => panic!("Expected categorical split"),
            }

            // Left child for values NOT in bitset (1, 3, etc.)
            match *left_child {
                Node::Leaf { value } => assert_eq!(value, d(100.0)),
                _ => panic!("Expected leaf"),
            }

            // Right child for values IN bitset (0, 2)
            match *right_child {
                Node::Leaf { value } => assert_eq!(value, d(200.0)),
                _ => panic!("Expected leaf"),
            }
        }
        _ => panic!("Expected split node"),
    }
}

fn numeric(feature_idx: usize, threshold: f32, left: Node, right: Node) -> Node {
    Node::Split {
        feature_idx,
        split: SplitKind::Numeric { threshold: f(threshold), operator: Operator::GreaterThan },
        left_child: Box::new(left),
        right_child: Box::new(right),
        missing_direction: MissingDirection::Unspecified,
    }
}

fn leaf(value: f64) -> Node {
    Node::Leaf { value: d(value) }
}

#[test]
fn uneven_tree_is_not_oblivious() {
    let root = numeric(1, 0.5, numeric(0, 0.5, leaf(3.0), leaf(2.0)), leaf(1.0));
    assert!(root.get_oblivious_splits().is_none());
}

#[test]
fn equal_zeros_agree_as_thresholds() {
    let root = numeric(
        1,
        0.5,
        numeric(0, 0.0, leaf(3.0), leaf(2.0)),
        numeric(0, -0.0, leaf(1.0), leaf(0.0)),
    );
    assert!(root.get_oblivious_splits().is_some());
    let root = numeric(
        1,
        0.5,
        numeric(0, f32::NAN, leaf(3.0), leaf(2.0)),
        numeric(0, f32::NAN, leaf(1.0), leaf(0.0)),
    );
    assert!(root.get_oblivious_splits().is_none());
}

#[test]
fn leaf_is_oblivious_without_tests() {
    assert_eq!(leaf(1.0).get_oblivious_splits().map(|s| s.len()), Some(0));
}

#[test]
fn new_leaves_take_the_order_of_the_old() {
    let root = numeric(1, 0.5, numeric(0, 0.25, leaf(3.0), leaf(2.0)), leaf(1.0));
    let relabelled = root.with_leaves(&vec![d(10.0), d(20.0), d(30.0)]);
    let mut leaves = Vec::new();
    relabelled.collect_leaves(&mut leaves);
    assert_eq!(leaves, vec![d(10.0), d(20.0), d(30.0)]);
    match relabelled {
        Node::Split { feature_idx, left_child, right_child, .. } => {
            assert_eq!(feature_idx, 1);
            assert!(matches!(*left_child, Node::Split { feature_idx: 0, .. }));
            assert!(matches!(*right_child, Node::Leaf { value } if value == d(10.0)));
        }
        _ => panic!("expected a split"),
    }
}

#[test]
fn clones_hold_the_same_tree() {
    let tree = Tree { root: numeric(3, 0.5, leaf(1.0), leaf(2.0)), weight: d(0.5) };
    let copy = tree.clone();
    assert_eq!(format!("{:?}", tree), format!("{:?}", copy));
}
