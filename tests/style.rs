use kokoros::style::{StyleError, StyleMix, StyleTable};

fn unit(i: usize) -> Vec<f32> {
    let mut v = vec![0.0f32; 256];
    v[i] = 1.0;
    v
}

fn table() -> StyleTable<Vec<f32>> {
    let mut t = StyleTable::new();
    t.insert("a", unit(0));
    t.insert("b", unit(1));
    t
}

/// Applies a mix the way the synthesis path does: weights are tenths.
fn apply(t: &StyleTable<Vec<f32>>, m: &StyleMix) -> Vec<f32> {
    match m {
        StyleMix::Single(i) => t.get(*i).clone(),
        StyleMix::Blend(terms) => {
            let mut out = vec![0.0f32; 256];
            for &(i, w) in terms {
                let portion = w as f32 * 0.1;
                for (o, x) in out.iter_mut().zip(t.get(i).iter()) {
                    *o += x * portion;
                }
            }
            out
        }
    }
}

fn terms(m: Result<StyleMix, StyleError>) -> Vec<(usize, u64)> {
    match m {
        Ok(StyleMix::Blend(t)) => t,
        other => panic!("not a blend: {:?}", other),
    }
}

#[test]
fn single_name_selects_its_vector() {
    let t = table();
    match t.resolve("b") {
        Ok(StyleMix::Single(i)) => assert_eq!(t.get(i), &unit(1)),
        other => panic!("{:?}", other),
    }
}

#[test]
fn blend_weights_are_tenths() {
    let t = table();
    let m = t.resolve("a.5+b.5").unwrap();
    let v = apply(&t, &m);
    assert_eq!(v[0], 0.5);
    assert_eq!(v[1], 0.5);
    assert!(v[2..].iter().all(|&x| x == 0.0));
    assert_eq!(terms(t.resolve("a.5+b.5")), vec![(0, 5), (1, 5)]);
}

#[test]
fn blend_weights_are_not_renormalised() {
    let t = table();
    assert_eq!(terms(t.resolve("a.4+b.9")), vec![(0, 4), (1, 9)]);
    assert_eq!(terms(t.resolve("a.12+a.3")), vec![(0, 12), (0, 3)]);
}

#[test]
fn unknown_single_style_is_an_error() {
    let t = table();
    assert!(matches!(t.resolve("zz"), Err(StyleError::UnknownStyle)));
    assert!(matches!(t.resolve("a.5"), Err(StyleError::UnknownStyle)));
    let empty: StyleTable<Vec<f32>> = StyleTable::new();
    assert!(matches!(empty.resolve("a"), Err(StyleError::UnknownStyle)));
}

#[test]
fn unknown_style_in_blend_contributes_nothing() {
    let t = table();
    assert_eq!(terms(t.resolve("a.5+zz.5")), vec![(0, 5)]);
    assert_eq!(terms(t.resolve("zz.5+yy.5")), vec![]);
    let v = apply(&t, &t.resolve("zz.5+b.3").unwrap());
    assert_eq!(v[1], 0.3f32 * 1.0);
}

#[test]
fn segments_without_weight_are_skipped() {
    let t = table();
    assert_eq!(terms(t.resolve("a+b.3")), vec![(1, 3)]);
    assert_eq!(terms(t.resolve("a.x+b.")), vec![]);
    assert_eq!(terms(t.resolve("a.1.5+b.2")), vec![(1, 2)]);
    assert_eq!(terms(t.resolve("+")), vec![]);
}

#[test]
fn resolution_is_deterministic() {
    let t = table();
    let a = apply(&t, &t.resolve("a.3+b.7").unwrap());
    let b = apply(&t, &t.resolve("a.3+b.7").unwrap());
    assert_eq!(a.iter().map(|x| x.to_bits()).collect::<Vec<_>>(), b.iter().map(|x| x.to_bits()).collect::<Vec<_>>());
}

#[test]
fn insert_replaces_existing_name() {
    let mut t = table();
    t.insert("a", unit(5));
    assert_eq!(t.len(), 2);
    match t.resolve("a") {
        Ok(StyleMix::Single(i)) => assert_eq!(t.get(i), &unit(5)),
        other => panic!("{:?}", other),
    }
}
