//! Parameters of the encryption scheme and of the ORAM.
use vstd::prelude::*;

verus! {

/// Parameters of the encryption scheme. (The noise of every encryption is
/// drawn from a fixed small distribution, so no deviation is kept here.)
#[derive(Clone, Copy, Debug)]
pub struct TFHEParameters {
    pub polynomial_size: usize,
    pub base_log: usize,
    pub level_count: usize,
    pub key_switch_base_log: usize,
    pub key_switch_level_count: usize,
    pub negs_base_log: usize,
    pub negs_level_count: usize,
    pub plaintext_modulus: u64,
    pub secure_seed: bool,
    pub modulus: u128,
}

impl TFHEParameters {
    /// The default parameters: `N = 2048`, `t = 2^8`, the native modulus.
    pub open spec fn default_spec() -> TFHEParameters {
        TFHEParameters {
            polynomial_size: 2048,
            base_log: 5,
            level_count: 6,
            key_switch_base_log: 5,
            key_switch_level_count: 9,
            negs_base_log: 5,
            negs_level_count: 9,
            plaintext_modulus: 256,
            secure_seed: true,
            modulus: 0x1_0000_0000_0000_0000,
        }
    }
}

impl Default for TFHEParameters {
    fn default() -> (r: Self)
        ensures
            r == TFHEParameters::default_spec(),
    {
        TFHEParameters {
            polynomial_size: 2048,
            base_log: 5,
            level_count: 6,
            key_switch_base_log: 5,
            key_switch_level_count: 9,
            negs_base_log: 5,
            negs_level_count: 9,
            plaintext_modulus: 256,
            secure_seed: true,
            modulus: 0x1_0000_0000_0000_0000u128,
        }
    }
}

/// The shape of the ORAM to run.
#[derive(Clone, Copy, Debug)]
pub enum ORAMParameters {
    SingleQuery { item_count: usize, iterations: usize },
    MultiQuery { item_count: usize, query_count: usize, iterations: usize },
    Batched { rows: usize, cols: usize, iterations: usize },
}

impl Default for ORAMParameters {
    fn default() -> (r: Self)
        ensures
            r == (ORAMParameters::Batched { rows: 384, cols: 16, iterations: 1 }),
    {
        ORAMParameters::Batched { rows: 384, cols: 16, iterations: 1 }
    }
}

/// A list of parameter sets: each entry pairs ORAM shapes with scheme
/// parameters, and every combination of the two is run.
pub struct InputParamsList {
    pub list: Vec<(Vec<ORAMParameters>, Vec<TFHEParameters>)>,
}

impl Default for InputParamsList {
    fn default() -> (r: Self)
        ensures
            r.list@.len() == 1,
            r.list@[0].0@ == seq![ORAMParameters::Batched { rows: 384, cols: 16, iterations: 1 }],
            r.list@[0].1@ == seq![TFHEParameters::default_spec()],
    {
        let mut orams: Vec<ORAMParameters> = Vec::new();
        orams.push(ORAMParameters::default());
        let mut tfhes: Vec<TFHEParameters> = Vec::new();
        tfhes.push(TFHEParameters::default());
        let mut list: Vec<(Vec<ORAMParameters>, Vec<TFHEParameters>)> = Vec::new();
        list.push((orams, tfhes));
        InputParamsList { list }
    }
}

/// One ORAM shape with one set of scheme parameters.
pub struct ServerParams {
    pub oram: ORAMParameters,
    pub tfhe: TFHEParameters,
}

impl Default for ServerParams {
    fn default() -> (r: Self)
        ensures
            r.oram == (ORAMParameters::Batched { rows: 384, cols: 16, iterations: 1 }),
            r.tfhe == TFHEParameters::default_spec(),
    {
        ServerParams { oram: ORAMParameters::default(), tfhe: TFHEParameters::default() }
    }
}

/// All the combinations of the entries `orams[0..i]` with every scheme parameter set,
/// in order, for one entry `(orams, tfhes)` of the input list.
pub open spec fn entry_combinations(
    orams: Seq<ORAMParameters>,
    tfhes: Seq<TFHEParameters>,
    i: int,
) -> Seq<(ORAMParameters, TFHEParameters)>
    decreases i,
{
    if i <= 0 {
        seq![]
    } else {
        entry_combinations(orams, tfhes, i - 1) + tfhes.map_values(
            |t: TFHEParameters| (orams[i - 1], t),
        )
    }
}

/// The combinations of the first `m` entries of the input list, in order.
pub open spec fn list_combinations(
    list: Seq<(Seq<ORAMParameters>, Seq<TFHEParameters>)>,
    m: int,
) -> Seq<(ORAMParameters, TFHEParameters)>
    decreases m,
{
    if m <= 0 {
        seq![]
    } else {
        list_combinations(list, m - 1) + entry_combinations(
            list[m - 1].0,
            list[m - 1].1,
            list[m - 1].0.len() as int,
        )
    }
}

/// The input list with its vectors viewed as sequences.
pub open spec fn list_view(l: Seq<(Vec<ORAMParameters>, Vec<TFHEParameters>)>) -> Seq<
    (Seq<ORAMParameters>, Seq<TFHEParameters>),
> {
    l.map_values(|e: (Vec<ORAMParameters>, Vec<TFHEParameters>)| (e.0@, e.1@))
}

impl ServerParams {
    /// Every combination of an ORAM shape and a scheme parameter set of each
    /// entry of the list, entry by entry, ORAM shape by ORAM shape.
    pub fn from_input_params_list(input: InputParamsList) -> (out: Vec<Self>)
        ensures
            out@.map_values(|p: ServerParams| (p.oram, p.tfhe)) == list_combinations(
                list_view(input.list@),
                input.list@.len() as int,
            ),
    {
        let mut out: Vec<Self> = Vec::new();
        let ghost lv = list_view(input.list@);
        let nl = input.list.len();
        let mut e: usize = 0;
        while e < nl
            invariant
                e <= nl,
                nl == input.list.len(),
                lv == list_view(input.list@),
                out@.map_values(|p: ServerParams| (p.oram, p.tfhe)) == list_combinations(lv, e as int),
            decreases nl - e,
        {
            let orams = &input.list[e].0;
            let tfhes = &input.list[e].1;
            let ghost before = out@.map_values(|p: ServerParams| (p.oram, p.tfhe));
            let no = orams.len();
            let mut i: usize = 0;
            while i < no
                invariant
                    i <= no,
                    no == orams.len(),
                    e < nl,
                    nl == input.list.len(),
                    lv == list_view(input.list@),
                    orams@ == lv[e as int].0,
                    tfhes@ == lv[e as int].1,
                    before == list_combinations(lv, e as int),
                    out@.map_values(|p: ServerParams| (p.oram, p.tfhe)) == before + entry_combinations(
                        orams@,
                        tfhes@,
                        i as int,
                    ),
                decreases no - i,
            {
                let nt = tfhes.len();
                let ghost before_i = out@.map_values(|p: ServerParams| (p.oram, p.tfhe));
                let mut j: usize = 0;
                while j < nt
                    invariant
                        j <= nt,
                        nt == tfhes.len(),
                        i < no,
                        no == orams.len(),
                        out@.map_values(|p: ServerParams| (p.oram, p.tfhe)) == before_i + tfhes@.take(
                            j as int,
                        ).map_values(|t: TFHEParameters| (orams@[i as int], t)),
                    decreases nt - j,
                {
                    let o = orams[i];
                    let t = tfhes[j];
                    let ghost prev = out@;
                    out.push(ServerParams { oram: o, tfhe: t });
                    proof {
                        assert(out@.map_values(|p: ServerParams| (p.oram, p.tfhe)) =~= prev.map_values(
                            |p: ServerParams| (p.oram, p.tfhe),
                        ).push((o, t)));
                        assert(tfhes@.take(j + 1) =~= tfhes@.take(j as int).push(tfhes@[j as int]));
                        assert(tfhes@.take(j + 1).map_values(|t: TFHEParameters| (orams@[i as int], t))
                            =~= tfhes@.take(j as int).map_values(
                            |t: TFHEParameters| (orams@[i as int], t),
                        ).push((o, t)));
                        assert(out@.map_values(|p: ServerParams| (p.oram, p.tfhe)) =~= before_i
                            + tfhes@.take(j + 1).map_values(
                            |t: TFHEParameters| (orams@[i as int], t),
                        ));
                    }
                    j += 1;
                }
                proof {
                    assert(tfhes@.take(nt as int) =~= tfhes@);
                    assert(out@.map_values(|p: ServerParams| (p.oram, p.tfhe)) =~= before
                        + entry_combinations(orams@, tfhes@, i + 1));
                }
                i += 1;
            }
            proof {
                assert(out@.map_values(|p: ServerParams| (p.oram, p.tfhe)) =~= list_combinations(
                    lv,
                    e + 1,
                ));
            }
            e += 1;
        }
        out
    }
}

} // verus!
