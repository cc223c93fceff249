//! Named accent slots of a Thaimeleon scheme.
use vstd::prelude::*;

verus! {

/// A value for each named hue of the palette.
#[derive(PartialEq, Eq, Copy, Clone, Debug, Default)]
pub struct NamedHues<T> {
    pub red: T,
    pub orange: T,
    pub yellow: T,
    pub cyan: T,
    pub green: T,
    pub blue: T,
    pub purple: T,
    pub magenta: T,
}

/// `out` is a value that `f` may give back for `x`.
pub open spec fn gives<T, B, F: FnMut(T) -> B>(f: F, x: T, out: B) -> bool {
    call_ensures(f, (x,), out)
}

/// `f` may succeed on `x`.
pub open spec fn succeeds_on<T, B, E, F: FnMut(T) -> Result<B, E>>(f: F, x: T) -> bool {
    exists|v: B| #[trigger] gives(f, x, Ok::<B, E>(v))
}

/// The named hues of `hues` in the order red, orange, yellow, green, cyan, blue, purple, magenta.
pub open spec fn hue_order<T>(hues: NamedHues<T>) -> Seq<T> {
    seq![
        hues.red,
        hues.orange,
        hues.yellow,
        hues.green,
        hues.cyan,
        hues.blue,
        hues.purple,
        hues.magenta,
    ]
}

/// Going through the named hues in [`hue_order`], `f` may succeed on each hue before one
/// on which it fails with `e`.
pub open spec fn first_failure<T, B, E, F: FnMut(T) -> Result<B, E>>(
    f: F,
    hues: NamedHues<T>,
    e: E,
) -> bool {
    exists|k: int|
        0 <= k < 8 && #[trigger] gives(f, hue_order(hues)[k], Err::<B, E>(e)) && forall|j: int|
            0 <= j < k ==> succeeds_on::<T, B, E, F>(f, #[trigger] hue_order(hues)[j])
}

/// Going through the named hues in [`hue_order`], `f` may be called on each hue as long as
/// it may have succeeded on all those before it.
pub open spec fn callable_until_failure<T, B, E, F: FnMut(T) -> Result<B, E>>(
    f: F,
    hues: NamedHues<T>,
) -> bool {
    forall|k: int|
        0 <= k < 8 && (forall|j: int| 0 <= j < k ==> succeeds_on::<T, B, E, F>(f, #[trigger] hue_order(hues)[j]))
            ==> call_requires(f, (#[trigger] hue_order(hues)[k],))
}

/// `f` may be called on each named hue of `hues`.
pub open spec fn callable_on_all<T, B, F: FnMut(T) -> B>(f: F, hues: NamedHues<T>) -> bool {
    &&& call_requires(f, (hues.red,))
    &&& call_requires(f, (hues.orange,))
    &&& call_requires(f, (hues.yellow,))
    &&& call_requires(f, (hues.green,))
    &&& call_requires(f, (hues.cyan,))
    &&& call_requires(f, (hues.blue,))
    &&& call_requires(f, (hues.purple,))
    &&& call_requires(f, (hues.magenta,))
}

/// Each named hue of `mapped` is a value that `f` may give back for that hue of `hues`.
pub open spec fn mapped_by<T, B, F: FnMut(T) -> B>(f: F, hues: NamedHues<T>, mapped: NamedHues<B>) -> bool {
    forall|k: int| 0 <= k < 8 ==> #[trigger] gives(f, hue_order(hues)[k], hue_order(mapped)[k])
}

/// `tried` is what trying `f` on each named hue of `hues` may give: `Ok` of hues on each of
/// which `f` may succeed with that value, or the error of the first failure.
pub open spec fn try_mapped_by<T, B, E, F: FnMut(T) -> Result<B, E>>(
    f: F,
    hues: NamedHues<T>,
    tried: Result<NamedHues<B>, E>,
) -> bool {
    match tried {
        Ok(m) => forall|k: int|
            0 <= k < 8 ==> #[trigger] gives(f, hue_order(hues)[k], Ok::<B, E>(hue_order(m)[k])),
        Err(e) => first_failure(f, hues, e),
    }
}

/// The named hues are taken in the order red, orange, yellow, green, cyan, blue, purple,
/// magenta.
pub proof fn lemma_hue_order_is_fixed<T>(hues: NamedHues<T>)
    ensures
        hue_order(hues) == seq![
            hues.red,
            hues.orange,
            hues.yellow,
            hues.green,
            hues.cyan,
            hues.blue,
            hues.purple,
            hues.magenta,
        ],
{
}

/// Mapping the named hues with `f` gives, field by field, a value `f` may give back for that field.
pub proof fn lemma_map_result<T, B, F>(f: F, hues: NamedHues<T>, mapped: NamedHues<B>) where F: FnMut(T) -> B
    requires
        mapped_by(f, hues, mapped),
    ensures
        gives(f, hues.red, mapped.red),
        gives(f, hues.orange, mapped.orange),
        gives(f, hues.yellow, mapped.yellow),
        gives(f, hues.green, mapped.green),
        gives(f, hues.cyan, mapped.cyan),
        gives(f, hues.blue, mapped.blue),
        gives(f, hues.purple, mapped.purple),
        gives(f, hues.magenta, mapped.magenta),
{
    assert(gives(f, hue_order(hues)[0], hue_order(mapped)[0]));
    assert(gives(f, hue_order(hues)[1], hue_order(mapped)[1]));
    assert(gives(f, hue_order(hues)[2], hue_order(mapped)[2]));
    assert(gives(f, hue_order(hues)[3], hue_order(mapped)[3]));
    assert(gives(f, hue_order(hues)[4], hue_order(mapped)[4]));
    assert(gives(f, hue_order(hues)[5], hue_order(mapped)[5]));
    assert(gives(f, hue_order(hues)[6], hue_order(mapped)[6]));
    assert(gives(f, hue_order(hues)[7], hue_order(mapped)[7]));
}

/// Trying `f` on the named hues gives either `Ok` of the value `f` may succeed with on each
/// hue, field by field, or the error that `f` may fail with on some hue, going through red,
/// orange, yellow, green, cyan, blue, purple, magenta, such that `f` may succeed on every
/// hue before it.
pub proof fn lemma_try_map_result<T, B, E, F>(f: F, hues: NamedHues<T>, tried: Result<NamedHues<B>, E>)
    where F: FnMut(T) -> Result<B, E>
    requires
        try_mapped_by(f, hues, tried),
    ensures
        tried matches Ok(m) ==> {
            &&& gives(f, hues.red, Ok::<B, E>(m.red))
            &&& gives(f, hues.orange, Ok::<B, E>(m.orange))
            &&& gives(f, hues.yellow, Ok::<B, E>(m.yellow))
            &&& gives(f, hues.green, Ok::<B, E>(m.green))
            &&& gives(f, hues.cyan, Ok::<B, E>(m.cyan))
            &&& gives(f, hues.blue, Ok::<B, E>(m.blue))
            &&& gives(f, hues.purple, Ok::<B, E>(m.purple))
            &&& gives(f, hues.magenta, Ok::<B, E>(m.magenta))
        },
        tried matches Err(e) ==> {
            ||| gives(f, hues.red, Err::<B, E>(e))
            ||| succeeds_on::<T, B, E, F>(f, hues.red) && gives(f, hues.orange, Err::<B, E>(e))
            ||| succeeds_on::<T, B, E, F>(f, hues.red) && succeeds_on::<T, B, E, F>(f, hues.orange)
                && gives(f, hues.yellow, Err::<B, E>(e))
            ||| succeeds_on::<T, B, E, F>(f, hues.red) && succeeds_on::<T, B, E, F>(f, hues.orange)
                && succeeds_on::<T, B, E, F>(f, hues.yellow) && gives(f, hues.green, Err::<B, E>(e))
            ||| succeeds_on::<T, B, E, F>(f, hues.red) && succeeds_on::<T, B, E, F>(f, hues.orange)
                && succeeds_on::<T, B, E, F>(f, hues.yellow) && succeeds_on::<T, B, E, F>(f, hues.green)
                && gives(f, hues.cyan, Err::<B, E>(e))
            ||| succeeds_on::<T, B, E, F>(f, hues.red) && succeeds_on::<T, B, E, F>(f, hues.orange)
                && succeeds_on::<T, B, E, F>(f, hues.yellow) && succeeds_on::<T, B, E, F>(f, hues.green)
                && succeeds_on::<T, B, E, F>(f, hues.cyan) && gives(f, hues.blue, Err::<B, E>(e))
            ||| succeeds_on::<T, B, E, F>(f, hues.red) && succeeds_on::<T, B, E, F>(f, hues.orange)
                && succeeds_on::<T, B, E, F>(f, hues.yellow) && succeeds_on::<T, B, E, F>(f, hues.green)
                && succeeds_on::<T, B, E, F>(f, hues.cyan) && succeeds_on::<T, B, E, F>(f, hues.blue)
                && gives(f, hues.purple, Err::<B, E>(e))
            ||| succeeds_on::<T, B, E, F>(f, hues.red) && succeeds_on::<T, B, E, F>(f, hues.orange)
                && succeeds_on::<T, B, E, F>(f, hues.yellow) && succeeds_on::<T, B, E, F>(f, hues.green)
                && succeeds_on::<T, B, E, F>(f, hues.cyan) && succeeds_on::<T, B, E, F>(f, hues.blue)
                && succeeds_on::<T, B, E, F>(f, hues.purple) && gives(f, hues.magenta, Err::<B, E>(e))
        },
{
    let order = seq![hues.red, hues.orange, hues.yellow, hues.green, hues.cyan, hues.blue, hues.purple, hues.magenta];
    assert(hue_order(hues) == order);
    match tried {
        Ok(m) => {
            assert(gives(f, hue_order(hues)[0], Ok::<B, E>(hue_order(m)[0])));
            assert(gives(f, hue_order(hues)[1], Ok::<B, E>(hue_order(m)[1])));
            assert(gives(f, hue_order(hues)[2], Ok::<B, E>(hue_order(m)[2])));
            assert(gives(f, hue_order(hues)[3], Ok::<B, E>(hue_order(m)[3])));
            assert(gives(f, hue_order(hues)[4], Ok::<B, E>(hue_order(m)[4])));
            assert(gives(f, hue_order(hues)[5], Ok::<B, E>(hue_order(m)[5])));
            assert(gives(f, hue_order(hues)[6], Ok::<B, E>(hue_order(m)[6])));
            assert(gives(f, hue_order(hues)[7], Ok::<B, E>(hue_order(m)[7])));
        },
        Err(e) => {
            let k = choose|k: int|
                0 <= k < 8 && #[trigger] gives(f, hue_order(hues)[k], Err::<B, E>(e)) && forall|j: int|
                    0 <= j < k ==> succeeds_on::<T, B, E, F>(f, #[trigger] hue_order(hues)[j]);
            assert(gives(f, order[k], Err::<B, E>(e)));
            assert forall|j: int| 0 <= j < k implies succeeds_on::<T, B, E, F>(f, #[trigger] order[j]) by {
                assert(succeeds_on::<T, B, E, F>(f, hue_order(hues)[j]));
            }
            if k >= 1 { assert(succeeds_on::<T, B, E, F>(f, order[0])); }
            if k >= 2 { assert(succeeds_on::<T, B, E, F>(f, order[1])); }
            if k >= 3 { assert(succeeds_on::<T, B, E, F>(f, order[2])); }
            if k >= 4 { assert(succeeds_on::<T, B, E, F>(f, order[3])); }
            if k >= 5 { assert(succeeds_on::<T, B, E, F>(f, order[4])); }
            if k >= 6 { assert(succeeds_on::<T, B, E, F>(f, order[5])); }
            if k >= 7 { assert(succeeds_on::<T, B, E, F>(f, order[6])); }
        },
    }
}

/// When `f` gives back one answer for each argument and fails on hue `k` of [`hue_order`],
/// trying `f` fails, with the error `f` gives on a hue no later than `k`. So when `f` fails
/// on both blue and purple, the error returned is that of blue or of a hue before it.
pub proof fn lemma_try_map_fails_no_later<T, B, E, F>(
    f: F,
    hues: NamedHues<T>,
    tried: Result<NamedHues<B>, E>,
    k: int,
    failure: E,
) where F: FnMut(T) -> Result<B, E>
    requires
        try_mapped_by(f, hues, tried),
        forall|x: T, o1: Result<B, E>, o2: Result<B, E>|
            #[trigger] gives(f, x, o1) && #[trigger] gives(f, x, o2) ==> o1 == o2,
        0 <= k < 8,
        gives(f, hue_order(hues)[k], Err::<B, E>(failure)),
    ensures
        tried is Err,
        exists|j: int| 0 <= j <= k && #[trigger] gives(f, hue_order(hues)[j], Err::<B, E>(tried->Err_0)),
{
    let order = hue_order(hues);
    match tried {
        Ok(m) => {
            assert(gives(f, order[k], Ok::<B, E>(hue_order(m)[k])));
        },
        Err(e) => {
            let j = choose|j: int|
                0 <= j < 8 && #[trigger] gives(f, order[j], Err::<B, E>(e)) && forall|i: int|
                    0 <= i < j ==> succeeds_on::<T, B, E, F>(f, #[trigger] order[i]);
            if j > k {
                assert(succeeds_on::<T, B, E, F>(f, order[k]));
                let v = choose|v: B| #[trigger] gives(f, order[k], Ok::<B, E>(v));
                assert(gives(f, order[k], Err::<B, E>(failure)));
            }
            assert(gives(f, order[j], Err::<B, E>(e)));
        },
    }
}

/// When `f` never fails and succeeds with what `g` gives back, and `g` gives back one value
/// for each argument, trying `f` on the named hues gives `Ok` of mapping them with `g`.
pub proof fn lemma_try_map_without_failure_is_map<T, B, E, F, G>(
    f: F,
    g: G,
    hues: NamedHues<T>,
    tried: Result<NamedHues<B>, E>,
    mapped: NamedHues<B>,
) where F: FnMut(T) -> Result<B, E>, G: FnMut(T) -> B
    requires
        forall|x: T, out: Result<B, E>| #[trigger] gives(f, x, out) ==> out is Ok && gives(g, x, out->Ok_0),
        forall|x: T, v: B, w: B| #[trigger] gives(g, x, v) && #[trigger] gives(g, x, w) ==> v == w,
        try_mapped_by(f, hues, tried),
        mapped_by(g, hues, mapped),
    ensures
        tried == Ok::<NamedHues<B>, E>(mapped),
{
    match tried {
        Ok(m) => {
            assert forall|k: int| 0 <= k < 8 implies hue_order(m)[k] == hue_order(mapped)[k] by {
                assert(gives(f, hue_order(hues)[k], Ok::<B, E>(hue_order(m)[k])));
                assert(gives(g, hue_order(hues)[k], hue_order(mapped)[k]));
            }
            assert(hue_order(m)[0] == hue_order(mapped)[0]);
            assert(hue_order(m)[1] == hue_order(mapped)[1]);
            assert(hue_order(m)[2] == hue_order(mapped)[2]);
            assert(hue_order(m)[3] == hue_order(mapped)[3]);
            assert(hue_order(m)[4] == hue_order(mapped)[4]);
            assert(hue_order(m)[5] == hue_order(mapped)[5]);
            assert(hue_order(m)[6] == hue_order(mapped)[6]);
            assert(hue_order(m)[7] == hue_order(mapped)[7]);
        },
        Err(e) => {
            let k = choose|k: int|
                0 <= k < 8 && #[trigger] gives(f, hue_order(hues)[k], Err::<B, E>(e)) && forall|j: int|
                    0 <= j < k ==> succeeds_on::<T, B, E, F>(f, #[trigger] hue_order(hues)[j]);
        },
    }
}

impl<T: Copy> NamedHues<T> {
    /// Shortcut to convert every value in Named Hues using iterator like map.
    ///
    /// `f` is applied to red, orange, yellow, green, cyan, blue, purple and magenta, in that order.
    pub fn map<B, F>(&self, mut f: F) -> (mapped: NamedHues<B>) where F: FnMut(T) -> B
        requires
            callable_on_all(f, *self),
        ensures
            mapped_by(f, *self, mapped),
    {
        NamedHues {
            red: f(self.red),
            orange: f(self.orange),
            yellow: f(self.yellow),
            green: f(self.green),
            cyan: f(self.cyan),
            blue: f(self.blue),
            purple: f(self.purple),
            magenta: f(self.magenta),
        }
    }

    /// Shortcut to convert every value in Named Hues using iterator like try_map.
    ///
    /// `f` is applied to red, orange, yellow, green, cyan, blue, purple and magenta, in that
    /// order, up to the first failure, whose error is returned.
    pub fn try_map<B, F, E>(&self, mut f: F) -> (mapped: Result<NamedHues<B>, E>) where
        F: FnMut(T) -> Result<B, E>,
        requires
            callable_until_failure(f, *self),
        ensures
            try_mapped_by(f, *self, mapped),
    {
        let ghost order = hue_order(*self);
        let red = match f(self.red) {
            Ok(v) => v,
            Err(e) => {
                assert(gives(f, order[0], Err::<B, E>(e)));
                return Err(e);
            },
        };
        assert(succeeds_on::<T, B, E, F>(f, order[0])) by { assert(gives(f, order[0], Ok::<B, E>(red))); }
        let orange = match f(self.orange) {
            Ok(v) => v,
            Err(e) => {
                assert(gives(f, order[1], Err::<B, E>(e)));
                return Err(e);
            },
        };
        assert(succeeds_on::<T, B, E, F>(f, order[1])) by { assert(gives(f, order[1], Ok::<B, E>(orange))); }
        let yellow = match f(self.yellow) {
            Ok(v) => v,
            Err(e) => {
                assert(gives(f, order[2], Err::<B, E>(e)));
                return Err(e);
            },
        };
        assert(succeeds_on::<T, B, E, F>(f, order[2])) by { assert(gives(f, order[2], Ok::<B, E>(yellow))); }
        let green = match f(self.green) {
            Ok(v) => v,
            Err(e) => {
                assert(gives(f, order[3], Err::<B, E>(e)));
                return Err(e);
            },
        };
        assert(succeeds_on::<T, B, E, F>(f, order[3])) by { assert(gives(f, order[3], Ok::<B, E>(green))); }
        let cyan = match f(self.cyan) {
            Ok(v) => v,
            Err(e) => {
                assert(gives(f, order[4], Err::<B, E>(e)));
                return Err(e);
            },
        };
        assert(succeeds_on::<T, B, E, F>(f, order[4])) by { assert(gives(f, order[4], Ok::<B, E>(cyan))); }
        let blue = match f(self.blue) {
            Ok(v) => v,
            Err(e) => {
                assert(gives(f, order[5], Err::<B, E>(e)));
                return Err(e);
            },
        };
        assert(succeeds_on::<T, B, E, F>(f, order[5])) by { assert(gives(f, order[5], Ok::<B, E>(blue))); }
        let purple = match f(self.purple) {
            Ok(v) => v,
            Err(e) => {
                assert(gives(f, order[6], Err::<B, E>(e)));
                return Err(e);
            },
        };
        assert(succeeds_on::<T, B, E, F>(f, order[6])) by { assert(gives(f, order[6], Ok::<B, E>(purple))); }
        let magenta = match f(self.magenta) {
            Ok(v) => v,
            Err(e) => {
                assert(gives(f, order[7], Err::<B, E>(e)));
                return Err(e);
            },
        };
        Ok(NamedHues { red, orange, yellow, green, cyan, blue, purple, magenta })
    }
}

} // verus!
