use rust_macro::dp::{
    ChildRef, PullDPRules, PullDpEngine, PushDPRules, PushDpEngine, PushDpEngineEnhanced,
};
use std::cmp::min;

struct Ctx {
    h: Vec<i64>,
}

struct Frog;

impl PullDPRules for Frog {
    type State = usize;
    type Value = i64;
    type Ctx = Ctx;

    fn rank(_ctx: &Self::Ctx, s: &Self::State) -> usize {
        *s
    }

    fn neighbors(_ctx: &Self::Ctx, s: &Self::State) -> Vec<Self::State> {
        match *s {
            0 => vec![],
            1 => vec![s - 1],
            _ => vec![s - 1, s - 2],
        }
    }

    fn base(_ctx: &Self::Ctx, s: &Self::State) -> Option<Self::Value> {
        match *s {
            0 => Some(0),
            _ => None,
        }
    }

    fn combine<'a, I>(ctx: &Self::Ctx, s: &Self::State, childs: I) -> Self::Value
    where
        I: IntoIterator<Item = ChildRef<'a, Self::State, Self::Value>>,
    {
        let hi = ctx.h[*s];
        childs
            .into_iter()
            .map(|p| *p.value + (hi - ctx.h[*p.state]).abs())
            .min()
            .unwrap()
    }
}

#[test]
fn test_pull_dp() {
    let ctx = Ctx {
        h: vec![10, 30, 40, 20],
    };

    let plan = PullDpEngine::prepare::<Frog>(&ctx, vec![3]);
    let vals = PullDpEngine::solve_with_plan::<Frog>(&ctx, &plan);
    assert_eq!(vals[&0], 0);
    assert_eq!(vals[&1], 20);
    assert_eq!(vals[&2], 30);
    assert_eq!(vals[&3], 30);
}

#[test]
fn test_pull_dp_solve_matches_plan() {
    let ctx = Ctx {
        h: vec![10, 30, 40, 20],
    };
    let vals = PullDpEngine::solve::<Frog>(&ctx, vec![3]);
    assert_eq!(vals.len(), 4);
    assert_eq!(vals[&3], 30);

    let plan = PullDpEngine::prepare::<Frog>(&ctx, vec![2]);
    let first = PullDpEngine::solve_with_plan::<Frog>(&ctx, &plan);
    let second = PullDpEngine::solve_with_plan::<Frog>(&ctx, &plan);
    assert_eq!(first.len(), 3);
    assert_eq!(first, second);
    assert!(!first.contains_key(&3));
}

#[test]
fn test_pull_dp_base_short_circuits_combine() {
    let ctx = Ctx { h: vec![7] };
    let vals = PullDpEngine::solve::<Frog>(&ctx, vec![0]);
    assert_eq!(vals.len(), 1);
    assert_eq!(vals[&0], 0);
}

struct FrogPush;

impl PushDPRules for FrogPush {
    type State = usize;
    type Value = i64;
    type Ctx = Ctx;

    fn rank(_ctx: &Self::Ctx, s: &Self::State) -> usize {
        *s
    }

    fn succs(ctx: &Self::Ctx, s: &Self::State) -> Vec<Self::State> {
        match ctx.h.len() - s {
            0 => unreachable!(),
            1 => vec![],
            2 => vec![s + 1],
            _ => vec![s + 1, s + 2],
        }
    }

    fn identity(_ctx: &Self::Ctx) -> Self::Value {
        i64::MAX
    }

    fn op(_ctx: &Self::Ctx, a: &Self::Value, b: &Self::Value) -> Self::Value {
        min(*a, *b)
    }

    fn init(_ctx: &Self::Ctx, s: &Self::State) -> Option<Self::Value> {
        match s {
            0 => Some(0),
            _ => None,
        }
    }

    fn trans(
        ctx: &Self::Ctx,
        from: &Self::State,
        to: &Self::State,
        v_from: &Self::Value,
    ) -> Self::Value {
        v_from + (ctx.h[*from] - ctx.h[*to]).abs()
    }
}

#[test]
fn test_push_dp() {
    let ctx = Ctx {
        h: vec![10, 30, 40, 20],
    };
    let sources = vec![0];
    let result = PushDpEngine::propagate::<FrogPush>(&ctx, sources);
    assert_eq!(result.len(), 4);
    assert_eq!(result.get(&0), Some(&0));
    assert_eq!(result.get(&1), Some(&20));
    assert_eq!(result.get(&2), Some(&30));
    assert_eq!(result.get(&3), Some(&30));
}

#[test]
fn test_enhanced_push_dp() {
    let ctx = Ctx {
        h: vec![10, 30, 40, 20],
    };
    let sources = vec![0];
    let result = PushDpEngineEnhanced::propagate::<FrogPush>(&ctx, sources);
    assert_eq!(result.len(), 4);
    assert_eq!(result.get(&0), Some(&0));
    assert_eq!(result.get(&1), Some(&20));
    assert_eq!(result.get(&2), Some(&30));
    assert_eq!(result.get(&3), Some(&30));
}

struct FrogPushShuffled;

impl PushDPRules for FrogPushShuffled {
    type State = usize;
    type Value = i64;
    type Ctx = Ctx;

    fn rank(ctx: &Self::Ctx, s: &Self::State) -> usize {
        FrogPush::rank(ctx, s)
    }

    fn succs(ctx: &Self::Ctx, s: &Self::State) -> Vec<Self::State> {
        let mut out = FrogPush::succs(ctx, s);
        out.reverse();
        out
    }

    fn identity(ctx: &Self::Ctx) -> Self::Value {
        FrogPush::identity(ctx)
    }

    fn op(ctx: &Self::Ctx, a: &Self::Value, b: &Self::Value) -> Self::Value {
        FrogPush::op(ctx, a, b)
    }

    fn init(ctx: &Self::Ctx, s: &Self::State) -> Option<Self::Value> {
        FrogPush::init(ctx, s)
    }

    fn trans(
        ctx: &Self::Ctx,
        from: &Self::State,
        to: &Self::State,
        v_from: &Self::Value,
    ) -> Self::Value {
        FrogPush::trans(ctx, from, to, v_from)
    }
}

#[test]
fn test_push_dp_does_not_depend_on_successor_order() {
    let ctx = Ctx {
        h: vec![10, 30, 40, 20, 50, 15],
    };
    let plain = PushDpEngine::propagate::<FrogPush>(&ctx, vec![0]);
    let shuffled = PushDpEngine::propagate::<FrogPushShuffled>(&ctx, vec![0]);
    assert_eq!(plain.len(), 6);
    assert_eq!(plain, shuffled);
}

struct Paths;

impl PushDPRules for Paths {
    type State = (usize, usize);
    type Value = u64;
    type Ctx = usize;

    fn rank(_ctx: &Self::Ctx, s: &Self::State) -> usize {
        s.0 + s.1
    }

    fn succs(ctx: &Self::Ctx, s: &Self::State) -> Vec<Self::State> {
        let mut out = Vec::new();
        if s.0 + 1 < *ctx {
            out.push((s.0 + 1, s.1));
        }
        if s.1 + 1 < *ctx {
            out.push((s.0, s.1 + 1));
        }
        out
    }

    fn identity(_ctx: &Self::Ctx) -> Self::Value {
        0
    }

    fn op(_ctx: &Self::Ctx, a: &Self::Value, b: &Self::Value) -> Self::Value {
        a + b
    }

    fn init(_ctx: &Self::Ctx, s: &Self::State) -> Option<Self::Value> {
        if *s == (0, 0) {
            Some(1)
        } else {
            None
        }
    }

    fn trans(
        _ctx: &Self::Ctx,
        _from: &Self::State,
        _to: &Self::State,
        v_from: &Self::Value,
    ) -> Self::Value {
        *v_from
    }
}

#[test]
fn test_push_dp_accumulates_every_incoming_edge() {
    let result = PushDpEngine::propagate::<Paths>(&3, vec![(0, 0)]);
    assert_eq!(result.len(), 9);
    assert_eq!(result.get(&(0, 0)), Some(&1));
    assert_eq!(result.get(&(1, 1)), Some(&2));
    assert_eq!(result.get(&(2, 1)), Some(&3));
    assert_eq!(result.get(&(2, 2)), Some(&6));
}

#[test]
fn test_push_dp_without_sources_is_empty() {
    let ctx = Ctx { h: vec![1, 2] };
    let result = PushDpEngine::propagate::<FrogPush>(&ctx, vec![]);
    assert!(result.is_empty());
}

struct Lattice;

impl PullDPRules for Lattice {
    type State = (u8, u8);
    type Value = u64;
    type Ctx = ();

    fn rank(_ctx: &Self::Ctx, s: &Self::State) -> usize {
        s.0 as usize + s.1 as usize
    }

    fn neighbors(_ctx: &Self::Ctx, s: &Self::State) -> Vec<Self::State> {
        let mut out = Vec::new();
        if s.0 > 0 {
            out.push((s.0 - 1, s.1));
        }
        if s.1 > 0 {
            out.push((s.0, s.1 - 1));
        }
        out
    }

    fn combine<'a, I>(_ctx: &Self::Ctx, _s: &Self::State, childs: I) -> Self::Value
    where
        I: IntoIterator<Item = ChildRef<'a, Self::State, Self::Value>>,
    {
        let sum: u64 = childs.into_iter().map(|c| *c.value).sum();
        sum.max(1)
    }
}

#[test]
fn test_pull_dp_every_child_is_valued_before_its_parents() {
    let vals = PullDpEngine::solve::<Lattice>(&(), vec![(4, 4), (2, 3)]);
    assert_eq!(vals.len(), 25);
    assert_eq!(vals[&(0, 0)], 1);
    assert_eq!(vals[&(1, 1)], 2);
    assert_eq!(vals[&(2, 2)], 6);
    assert_eq!(vals[&(4, 4)], 70);
    assert_eq!(vals[&(2, 3)], 10);
}
