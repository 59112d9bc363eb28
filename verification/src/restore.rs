//! Restoration of packed Nuverse master tables into their expanded form:
//! positional arrays against a key structure, column-compressed tables,
//! and the whole-bundle walk with its `eventCards` merge.

use vstd::prelude::*;

use crate::errors::AppError;
use crate::trusted::{chars_to_string, lower_char_of, lowercase_char, str_chars};
use crate::value::{
    lemma_obj_insert_contains, models_of_jvals, obj_contains, obj_get, obj_index_of, obj_insert,
    JModel, JsonMap, JsonVal,
};

verus! {

/// The dictionary a tuple-shaped entry expands to: position `j` of the
/// value array is stored under the `j`-th tuple key, skipping nulls and
/// positions without a string key.
pub open spec fn tuple_dict(vs: Seq<JModel>, tkeys: Seq<JModel>) -> Seq<(Seq<char>, JModel)>
    decreases vs,
{
    if vs.len() == 0 {
        Seq::empty()
    } else {
        let prev = tuple_dict(vs.drop_last(), tkeys);
        let j = vs.len() - 1;
        if vs.last() is Null {
            prev
        } else if j < tkeys.len() && tkeys[j] is Str {
            obj_insert(prev, tkeys[j]->Str_0, vs.last())
        } else {
            prev
        }
    }
}

/// The parallel walk of `restore_dict` over the first `n` positions.
pub open spec fn srd_prefix(arr: Seq<JModel>, ks: Seq<JModel>, n: int) -> Seq<
    (Seq<char>, JModel),
>
    decreases arr, n,
    via srd_prefix_dec
{
    if n <= 0 || n > arr.len() || n > ks.len() {
        Seq::empty()
    } else {
        let prev = srd_prefix(arr, ks, n - 1);
        let v = arr[n - 1];
        let key = ks[n - 1];
        if v is Null {
            prev
        } else if key is Str {
            obj_insert(prev, key->Str_0, v)
        } else if key is Arr && key->Arr_0.len() >= 2 {
            let karr = key->Arr_0;
            let fname = if karr[0] is Str {
                karr[0]->Str_0
            } else {
                Seq::<char>::empty()
            };
            let sub = karr[1];
            if sub is Arr {
                if v is Arr {
                    obj_insert(prev, fname, JModel::Arr(srd_list(v->Arr_0, sub->Arr_0)))
                } else {
                    prev
                }
            } else if sub is Obj {
                match obj_get(sub->Obj_0, "__tuple__"@) {
                    Some(tk) => if tk is Arr && v is Arr {
                        obj_insert(prev, fname, JModel::Obj(tuple_dict(v->Arr_0, tk->Arr_0)))
                    } else {
                        prev
                    },
                    None => prev,
                }
            } else {
                prev
            }
        } else {
            prev
        }
    }
}

#[via_fn]
proof fn srd_prefix_dec(arr: Seq<JModel>, ks: Seq<JModel>, n: int) {
    if !(n <= 0 || n > arr.len() || n > ks.len()) {
        let v = arr[n - 1];
        if v is Arr {
            assert(decreases_to!(arr => arr[n - 1]));
            assert(decreases_to!(arr[n - 1] => arr[n - 1]->Arr_0));
        }
    }
}

/// The list a nested positional entry expands to: nulls are dropped,
/// arrays are recursively restored against `subks`, anything else is
/// copied as it stands.
pub open spec fn srd_list(vs: Seq<JModel>, subks: Seq<JModel>) -> Seq<JModel>
    decreases vs, vs.len() as int,
    via srd_list_dec
{
    if vs.len() == 0 {
        Seq::empty()
    } else {
        let prev = srd_list(vs.drop_last(), subks);
        let e = vs.last();
        if e is Null {
            prev
        } else if e is Arr {
            prev.push(JModel::Obj(spec_restore_dict(e->Arr_0, subks)))
        } else {
            prev.push(e)
        }
    }
}

#[via_fn]
proof fn srd_list_dec(vs: Seq<JModel>, subks: Seq<JModel>) {
    if vs.len() > 0 {
        let e = vs.last();
        if e is Arr {
            assert(decreases_to!(vs => vs[vs.len() - 1]));
            assert(decreases_to!(vs[vs.len() - 1] => vs[vs.len() - 1]->Arr_0));
        }
    }
}

/// What `restore_dict` returns: the parallel walk over the shorter of the
/// two sequences.
pub open spec fn spec_restore_dict(arr: Seq<JModel>, ks: Seq<JModel>) -> Seq<(Seq<char>, JModel)>
    decreases arr, arr.len() + ks.len() + 1,
{
    srd_prefix(
        arr,
        ks,
        if arr.len() <= ks.len() {
            arr.len() as int
        } else {
            ks.len() as int
        },
    )
}

/// The views of a vector of strings, element-wise.
pub open spec fn views_of_strings(s: Seq<String>) -> Seq<Seq<char>> {
    Seq::new(
        s.len(),
        |i: int| if 0 <= i < s.len() {
            s[i]@
        } else {
            Seq::<char>::empty()
        },
    )
}

/// The models of a vector of columns, element-wise.
pub open spec fn models_of_columns(s: Seq<Vec<JsonVal>>) -> Seq<Seq<JModel>> {
    Seq::new(
        s.len(),
        |i: int| if 0 <= i < s.len() {
            models_of_jvals(s[i]@)
        } else {
            Seq::<JModel>::empty()
        },
    )
}

/// The models of a vector of ordered maps, element-wise.
pub open spec fn models_of_jmaps(s: Seq<JsonMap>) -> Seq<Seq<(Seq<char>, JModel)>> {
    Seq::new(
        s.len(),
        |i: int| if 0 <= i < s.len() {
            s[i]@
        } else {
            Seq::<(Seq<char>, JModel)>::empty()
        },
    )
}

/// The enum table of a compact block: the `__ENUM__` entry, when it is an
/// object.
pub open spec fn enum_def_of(d: Seq<(Seq<char>, JModel)>) -> Option<Seq<(Seq<char>, JModel)>> {
    match obj_get(d, "__ENUM__"@) {
        Some(v) => if v is Obj {
            Some(v->Obj_0)
        } else {
            None
        },
        None => None,
    }
}

/// One column run through an enum table: a non-negative integer in range
/// picks the table entry; a null stays null; anything out of range or not
/// an integer becomes null.
pub open spec fn mapped_column(vals: Seq<JModel>, evs: Seq<JModel>) -> Seq<JModel> {
    Seq::new(
        vals.len(),
        |i: int| if 0 <= i < vals.len() {
            let v = vals[i];
            if v is Int && 0 <= v->Int_0 < evs.len() {
                evs[v->Int_0]
            } else {
                JModel::Null
            }
        } else {
            JModel::Null
        },
    )
}

/// The column a compact entry contributes: through its enum table when it
/// has one, as it stands otherwise.
pub open spec fn spec_col_of(
    key: Seq<char>,
    vals: Seq<JModel>,
    edef: Option<Seq<(Seq<char>, JModel)>>,
) -> Seq<JModel> {
    match edef {
        Some(enums) => match obj_get(enums, key) {
            Some(ev) => if ev is Arr {
                mapped_column(vals, ev->Arr_0)
            } else {
                vals
            },
            None => vals,
        },
        None => vals,
    }
}

/// The column labels of a compact block: every key except `__ENUM__`.
pub open spec fn spec_labels(d: Seq<(Seq<char>, JModel)>) -> Seq<Seq<char>>
    decreases d,
{
    if d.len() == 0 {
        Seq::empty()
    } else {
        let rest = spec_labels(d.drop_last());
        if d.last().0 == "__ENUM__"@ {
            rest
        } else {
            rest.push(d.last().0)
        }
    }
}

/// The columns of a compact block: the array-valued entries other than
/// `__ENUM__`, each through `spec_col_of`.
pub open spec fn spec_columns(
    d: Seq<(Seq<char>, JModel)>,
    edef: Option<Seq<(Seq<char>, JModel)>>,
) -> Seq<Seq<JModel>>
    decreases d,
{
    if d.len() == 0 {
        Seq::empty()
    } else {
        let rest = spec_columns(d.drop_last(), edef);
        if d.last().0 != "__ENUM__"@ && d.last().1 is Arr {
            rest.push(spec_col_of(d.last().0, d.last().1->Arr_0, edef))
        } else {
            rest
        }
    }
}

/// The shortest column length: the number of rows of the block.
pub open spec fn spec_min_len(cols: Seq<Seq<JModel>>) -> nat
    decreases cols,
{
    if cols.len() == 0 {
        0
    } else if cols.len() == 1 {
        cols[0].len()
    } else {
        let rest = spec_min_len(cols.drop_last());
        if cols.last().len() < rest {
            cols.last().len()
        } else {
            rest
        }
    }
}

/// Every column is at least as long as the minimum.
pub proof fn lemma_min_len_le(cols: Seq<Seq<JModel>>, k: int)
    requires
        0 <= k < cols.len(),
    ensures
        spec_min_len(cols) <= cols[k].len(),
    decreases cols,
{
    if cols.len() > 1 && k < cols.len() - 1 {
        lemma_min_len_le(cols.drop_last(), k);
        assert(cols.drop_last()[k] == cols[k]);
    }
}

/// Row `i` of the block: the first `k` label/column pairs, in order.
pub open spec fn spec_row_prefix(
    labels: Seq<Seq<char>>,
    cols: Seq<Seq<JModel>>,
    i: int,
    k: int,
) -> Seq<(Seq<char>, JModel)>
    decreases k,
{
    if k <= 0 {
        Seq::empty()
    } else {
        obj_insert(spec_row_prefix(labels, cols, i, k - 1), labels[k - 1], cols[k - 1][i])
    }
}

/// Row `i` of the block over all paired labels and columns.
pub open spec fn spec_row(
    labels: Seq<Seq<char>>,
    cols: Seq<Seq<JModel>>,
    i: int,
) -> Seq<(Seq<char>, JModel)> {
    spec_row_prefix(
        labels,
        cols,
        i,
        if labels.len() <= cols.len() {
            labels.len() as int
        } else {
            cols.len() as int
        },
    )
}

/// What `restore_compact_data` returns: one map per row, column order
/// kept, row count the shortest column length.
pub open spec fn spec_restore_compact(d: Seq<(Seq<char>, JModel)>) -> Seq<
    Seq<(Seq<char>, JModel)>,
> {
    let edef = enum_def_of(d);
    let labels = spec_labels(d);
    let cols = spec_columns(d, edef);
    if cols.len() == 0 {
        Seq::empty()
    } else {
        Seq::new(
            spec_min_len(cols),
            |i: int| if 0 <= i < spec_min_len(cols) {
                spec_row(labels, cols, i)
            } else {
                Seq::<(Seq<char>, JModel)>::empty()
            },
        )
    }
}

/// Expand a column-compressed table: keys are column labels, values are
/// the columns, and an optional `__ENUM__` entry maps numeric cells of a
/// column to its value table. Emits one map per row, preserving column
/// order; the row count is the shortest column's length.
#[verifier::rlimit(60)]
pub fn restore_compact_data(data: &JsonMap) -> (r: Vec<JsonMap>)
    ensures
        models_of_jmaps(r@) == spec_restore_compact(data@),
{
    let ghost gd = data@;
    let enum_key: String = "__ENUM__".to_owned();
    let edef: Option<&JsonMap> = match data.get("__ENUM__") {
        Some(v) => v.as_object(),
        None => None,
    };
    let ghost gedef = enum_def_of(gd);
    proof {
        match edef {
            Some(m) => assert(gedef == Some(m@)),
            None => assert(gedef is None),
        }
    }
    let mut labels: Vec<String> = Vec::new();
    let mut columns: Vec<Vec<JsonVal>> = Vec::new();
    let n = data.len();
    let mut e: usize = 0;
    while e < n
        invariant
            e <= n,
            n == gd.len(),
            gd == data@,
            enum_key@ == "__ENUM__"@,
            match edef {
                Some(m) => gedef == Some(m@),
                None => gedef is None,
            },
            gedef == enum_def_of(gd),
            views_of_strings(labels@) =~= spec_labels(gd.take(e as int)),
            models_of_columns(columns@) =~= spec_columns(gd.take(e as int), gedef),
        decreases n - e,
    {
        proof {
            assert(gd.take(e + 1).drop_last() =~= gd.take(e as int));
            assert(gd.take(e + 1).last() == gd[e as int]);
        }
        let (k, v) = data.entry_at(e);
        if !k.eq(&enum_key) {
            let ghost lprev = labels@;
            let ghost cprev = columns@;
            labels.push(k.clone());
            proof {
                assert(views_of_strings(labels@) =~= views_of_strings(lprev).push(k@));
            }
            if let JsonVal::Arr(vals) = v {
                let ghost mvals = models_of_jvals(vals@);
                proof {
                    assert(gd[e as int].1->Arr_0 =~= mvals);
                }
                let evs: Option<&Vec<JsonVal>> = match edef {
                    Some(enums) => match enums.get(k.as_str()) {
                        Some(ev) => ev.as_array(),
                        None => None,
                    },
                    None => None,
                };
                let ghost gcol = spec_col_of(gd[e as int].0, mvals, gedef);
                let mut col: Vec<JsonVal> = Vec::new();
                match evs {
                    Some(table) => {
                        let ghost mevs = models_of_jvals(table@);
                        proof {
                            assert(gcol =~= mapped_column(mvals, mevs));
                        }
                        let vn = vals.len();
                        let mut j: usize = 0;
                        while j < vn
                            invariant
                                j <= vn,
                                vn == vals@.len(),
                                mvals == models_of_jvals(vals@),
                                mevs == models_of_jvals(table@),
                                gcol =~= mapped_column(mvals, mevs),
                                col@.len() == j,
                                forall|t: int| 0 <= t < j ==> col@[t].model() == gcol[t],
                            decreases vn - j,
                        {
                            let cell = &vals[j];
                            match cell.as_u64() {
                                Some(u) => {
                                    if u < table.len() as u64 {
                                        col.push(table[u as usize].dup());
                                    } else {
                                        col.push(JsonVal::Null);
                                    }
                                }
                                None => {
                                    col.push(JsonVal::Null);
                                }
                            }
                            j += 1;
                        }
                    }
                    None => {
                        proof {
                            assert(gcol =~= mvals);
                        }
                        let vn = vals.len();
                        let mut j: usize = 0;
                        while j < vn
                            invariant
                                j <= vn,
                                vn == vals@.len(),
                                mvals == models_of_jvals(vals@),
                                gcol =~= mvals,
                                col@.len() == j,
                                forall|t: int| 0 <= t < j ==> col@[t].model() == gcol[t],
                            decreases vn - j,
                        {
                            col.push(vals[j].dup());
                            j += 1;
                        }
                    }
                }
                columns.push(col);
                proof {
                    assert(models_of_jvals(col@) =~= gcol);
                    assert(models_of_columns(columns@) =~= models_of_columns(cprev).push(gcol));
                }
            }
        }
        e += 1;
    }
    proof {
        assert(gd.take(n as int) =~= gd);
    }
    let ghost glabels = spec_labels(gd);
    let ghost gcols = spec_columns(gd, gedef);
    if columns.len() == 0 {
        let empty: Vec<JsonMap> = Vec::new();
        proof {
            assert(models_of_jmaps(empty@) =~= spec_restore_compact(gd));
        }
        return empty;
    }
    let mut num_entries = columns[0].len();
    let mut c: usize = 1;
    while c < columns.len()
        invariant
            1 <= c <= columns@.len(),
            columns@.len() >= 1,
            models_of_columns(columns@) =~= gcols,
            num_entries == spec_min_len(gcols.take(c as int)),
        decreases columns@.len() - c,
    {
        proof {
            assert(gcols.take(c + 1).drop_last() =~= gcols.take(c as int));
            assert(gcols.take(c + 1).last() == gcols[c as int]);
            assert(gcols[c as int] =~= models_of_jvals(columns@[c as int]@));
        }
        if columns[c].len() < num_entries {
            num_entries = columns[c].len();
        }
        c += 1;
    }
    proof {
        assert(gcols.take(columns@.len() as int) =~= gcols);
    }
    let zmin = if labels.len() <= columns.len() {
        labels.len()
    } else {
        columns.len()
    };
    let mut rows: Vec<JsonMap> = Vec::new();
    let mut i: usize = 0;
    while i < num_entries
        invariant
            i <= num_entries,
            num_entries == spec_min_len(gcols),
            views_of_strings(labels@) =~= glabels,
            models_of_columns(columns@) =~= gcols,
            zmin == if glabels.len() <= gcols.len() {
                glabels.len() as int
            } else {
                gcols.len() as int
            },
            zmin <= labels@.len() && zmin <= columns@.len(),
            rows@.len() == i,
            forall|t: int| 0 <= t < i ==> rows@[t]@ == spec_row(glabels, gcols, t),
        decreases num_entries - i,
    {
        let mut row = JsonMap::new();
        let mut k: usize = 0;
        while k < zmin
            invariant
                k <= zmin,
                i < num_entries,
                num_entries == spec_min_len(gcols),
                views_of_strings(labels@) =~= glabels,
                models_of_columns(columns@) =~= gcols,
                zmin <= labels@.len() && zmin <= columns@.len(),
                row@ =~= spec_row_prefix(glabels, gcols, i as int, k as int),
            decreases zmin - k,
        {
            proof {
                lemma_min_len_le(gcols, k as int);
                assert(gcols[k as int] =~= models_of_jvals(columns@[k as int]@));
            }
            let cell = columns[k][i].dup();
            row.insert(labels[k].clone(), cell);
            k += 1;
        }
        rows.push(row);
        i += 1;
    }
    proof {
        assert(models_of_jmaps(rows@) =~= spec_restore_compact(gd));
    }
    rows
}

/// Expand one positional array against its key structure: position `i` of
/// `array_data` is stored under `key_structure[i]`. A string key stores the
/// value as is; a two-element `[name, sub]` key expands a nested list
/// (`sub` an array) or a tuple (`sub` an object with `__tuple__`); nulls
/// and unknown shapes are skipped. The walk stops at the shorter side.
#[verifier::rlimit(60)]
pub fn restore_dict(array_data: &[JsonVal], key_structure: &[JsonVal]) -> (r: JsonMap)
    ensures
        r@ == spec_restore_dict(models_of_jvals(array_data@), models_of_jvals(key_structure@)),
    decreases array_data@,
{
    let ghost marr = models_of_jvals(array_data@);
    let ghost mks = models_of_jvals(key_structure@);
    let mut result = JsonMap::new();
    let n = if array_data.len() <= key_structure.len() {
        array_data.len()
    } else {
        key_structure.len()
    };
    let mut i: usize = 0;
    while i < n
        invariant
            i <= n,
            n == if array_data@.len() <= key_structure@.len() {
                array_data@.len()
            } else {
                key_structure@.len()
            },
            marr == models_of_jvals(array_data@),
            mks == models_of_jvals(key_structure@),
            result@ == srd_prefix(marr, mks, i as int),
        decreases n - i,
    {
        let ghost prev = result@;
        let value = &array_data[i];
        proof {
            assert(marr[i as int] == array_data@[i as int].model());
            assert(mks[i as int] == key_structure@[i as int].model());
        }
        if !value.is_null() {
            match &key_structure[i] {
                JsonVal::Str(ks_) => {
                    result.insert(ks_.clone(), value.dup());
                }
                JsonVal::Arr(karr) => {
                    if karr.len() >= 2 {
                        proof {
                            assert(mks[i as int]->Arr_0 =~= models_of_jvals(karr@));
                        }
                        let fname: String = match &karr[0] {
                            JsonVal::Str(s) => s.clone(),
                            _ => {
                                let e = String::new();
                                proof {
                                    assert(e@ =~= Seq::<char>::empty());
                                }
                                e
                            }
                        };
                        match &karr[1] {
                            JsonVal::Arr(sub_ks) => {
                                if let JsonVal::Arr(va) = value {
                                    let ghost mva = models_of_jvals(va@);
                                    let ghost msub = models_of_jvals(sub_ks@);
                                    proof {
                                        assert(marr[i as int]->Arr_0 =~= mva);
                                        assert(mks[i as int]->Arr_0[1]->Arr_0 =~= msub);
                                    }
                                    let mut restored: Vec<JsonVal> = Vec::new();
                                    let vn = va.len();
                                    let mut j: usize = 0;
                                    while j < vn
                                        invariant
                                            j <= vn,
                                            vn == va@.len(),
                                            mva == models_of_jvals(va@),
                                            msub == models_of_jvals(sub_ks@),
                                            models_of_jvals(restored@) =~= srd_list(
                                                mva.take(j as int),
                                                msub,
                                            ),
                                            i < array_data@.len(),
                                            array_data@[i as int] == JsonVal::Arr(*va),
                                        decreases vn - j,
                                    {
                                        proof {
                                            assert(mva.take(j + 1).drop_last() =~= mva.take(
                                                j as int,
                                            ));
                                            assert(mva.take(j + 1).last() == mva[j as int]);
                                            assert(mva[j as int] == va@[j as int].model());
                                        }
                                        let ghost rprev = restored@;
                                        let e = &va[j];
                                        if e.is_null() {
                                        } else if let JsonVal::Arr(ea) = e {
                                            proof {
                                                assert(decreases_to!(
                                                    array_data@ => array_data@[i as int]));
                                                assert(decreases_to!(
                                                    array_data@[i as int]
                                                        => array_data@[i as int]->Arr_0));
                                                assert(array_data@[i as int]->Arr_0 == *va);
                                                assert(decreases_to!(*va => va@));
                                                assert(decreases_to!(va@ => va@[j as int]));
                                                assert(decreases_to!(
                                                    va@[j as int] => va@[j as int]->Arr_0));
                                                assert(va@[j as int]->Arr_0 == *ea);
                                                assert(decreases_to!(*ea => ea@));
                                            }
                                            let m = restore_dict(ea.as_slice(), sub_ks.as_slice());
                                            proof {
                                                assert(mva[j as int]->Arr_0 =~= models_of_jvals(
                                                    ea@,
                                                ));
                                            }
                                            restored.push(JsonVal::Obj(m));
                                            proof {
                                                assert(models_of_jvals(restored@)
                                                    =~= models_of_jvals(rprev).push(
                                                    JModel::Obj(m@),
                                                ));
                                            }
                                        } else {
                                            let d = e.dup();
                                            restored.push(d);
                                            proof {
                                                assert(models_of_jvals(restored@)
                                                    =~= models_of_jvals(rprev).push(
                                                    mva[j as int],
                                                ));
                                            }
                                        }
                                        j += 1;
                                    }
                                    proof {
                                        assert(mva.take(vn as int) =~= mva);
                                    }
                                    result.insert(fname, JsonVal::Arr(restored));
                                    proof {
                                        assert(JsonVal::Arr(restored)@->Arr_0 =~= models_of_jvals(
                                            restored@,
                                        ));
                                    }
                                }
                            }
                            JsonVal::Obj(sobj) => {
                                proof {
                                    assert(mks[i as int]->Arr_0[1]->Obj_0 =~= sobj@);
                                }
                                let tv = sobj.get("__tuple__");
                                match tv {
                                    Some(tval) => {
                                        if let JsonVal::Arr(tkeys) = tval {
                                            if let JsonVal::Arr(va) = value {
                                                let ghost mva = models_of_jvals(va@);
                                                let ghost mtk = models_of_jvals(tkeys@);
                                                proof {
                                                    assert(marr[i as int]->Arr_0 =~= mva);
                                                    assert(tval@->Arr_0 =~= mtk);
                                                }
                                                let mut dict = JsonMap::new();
                                                let vn = va.len();
                                                let mut j: usize = 0;
                                                while j < vn
                                                    invariant
                                                        j <= vn,
                                                        vn == va@.len(),
                                                        mva == models_of_jvals(va@),
                                                        mtk == models_of_jvals(tkeys@),
                                                        dict@ =~= tuple_dict(
                                                            mva.take(j as int),
                                                            mtk,
                                                        ),
                                                        *value == JsonVal::Arr(*va),
                                                    decreases vn - j,
                                                {
                                                    proof {
                                                        assert(mva.take(j + 1).drop_last()
                                                            =~= mva.take(j as int));
                                                        assert(mva.take(j + 1).last() == mva[
                                                            j as int
                                                        ]);
                                                        assert(mva[j as int] == va@[
                                                            j as int
                                                        ].model());
                                                    }
                                                    let e = &va[j];
                                                    if !e.is_null() && j < tkeys.len() {
                                                        proof {
                                                            assert(mtk[j as int] == tkeys@[
                                                                j as int
                                                            ].model());
                                                        }
                                                        if let JsonVal::Str(tk) = &tkeys[j] {
                                                            dict.insert(tk.clone(), e.dup());
                                                        }
                                                    }
                                                    j += 1;
                                                }
                                                proof {
                                                    assert(mva.take(vn as int) =~= mva);
                                                }
                                                result.insert(fname, JsonVal::Obj(dict));
                                            }
                                        }
                                    }
                                    None => {}
                                }
                            }
                            _ => {}
                        }
                    }
                }
                _ => {}
            }
        }
        proof {
            assert(result@ =~= srd_prefix(marr, mks, i + 1));
        }
        i += 1;
    }
    proof {
        assert(result@ =~= spec_restore_dict(marr, mks));
    }
    result
}

/// The sort key of a master row: its `cardId` when it is an integer in
/// signed 64-bit range, `0` otherwise.
pub open spec fn spec_sort_key(x: JModel) -> int {
    match x {
        JModel::Obj(o) => match obj_get(o, "cardId"@) {
            Some(v) => if v is Int && i64::MIN <= v->Int_0 <= i64::MAX {
                v->Int_0
            } else {
                0
            },
            None => 0,
        },
        _ => 0,
    }
}

/// The `cardId` of a master row, when it has one.
pub open spec fn spec_card_id(x: JModel) -> Option<int> {
    match x {
        JModel::Obj(o) => match obj_get(o, "cardId"@) {
            Some(v) => if v is Int && i64::MIN <= v->Int_0 <= i64::MAX {
                Some(v->Int_0)
            } else {
                None
            },
            None => None,
        },
        _ => None,
    }
}

/// The set of `cardId`s found among the rows.
pub open spec fn existing_ids(items: Seq<JModel>) -> Set<int>
    decreases items,
{
    if items.len() == 0 {
        Set::empty()
    } else {
        let rest = existing_ids(items.drop_last());
        match spec_card_id(items.last()) {
            Some(k) => rest.insert(k),
            None => rest,
        }
    }
}

/// The rows of `items` whose `cardId` is absent or not among `ids`.
pub open spec fn filter_new(items: Seq<JModel>, ids: Set<int>) -> Seq<JModel>
    decreases items,
{
    if items.len() == 0 {
        Seq::empty()
    } else {
        let rest = filter_new(items.drop_last(), ids);
        match spec_card_id(items.last()) {
            Some(k) => if ids.contains(k) {
                rest
            } else {
                rest.push(items.last())
            },
            None => rest.push(items.last()),
        }
    }
}

/// Stable insertion by sort key: `x` goes after every element whose key is
/// at most its own.
pub open spec fn insert_by_id(sorted: Seq<JModel>, x: JModel) -> Seq<JModel>
    decreases sorted,
{
    if sorted.len() == 0 {
        seq![x]
    } else if spec_sort_key(sorted.last()) <= spec_sort_key(x) {
        sorted.push(x)
    } else {
        insert_by_id(sorted.drop_last(), x).push(sorted.last())
    }
}

/// The stable sort of the rows by `cardId` ascending: the result every
/// stable sorting algorithm gives for this total preorder.
pub open spec fn spec_sort_by_id(s: Seq<JModel>) -> Seq<JModel>
    decreases s,
{
    if s.len() == 0 {
        Seq::empty()
    } else {
        insert_by_id(spec_sort_by_id(s.drop_last()), s.last())
    }
}

/// The merged `eventCards` list: raw rows whose `cardId` already appears
/// among the existing rows are dropped, the remainder precedes the
/// existing rows, and the whole is stable-sorted ascending by `cardId`.
pub open spec fn spec_merge_rows(raw: Seq<JModel>, existing: Seq<JModel>) -> Seq<JModel> {
    spec_sort_by_id(filter_new(raw, existing_ids(existing)) + existing)
}

/// The restored form of one structured table: every array-shaped row is
/// expanded against the structure, everything else is dropped.
pub open spec fn spec_restored_list(varr: Seq<JModel>, sarr: Seq<JModel>) -> Seq<JModel>
    decreases varr,
{
    if varr.len() == 0 {
        Seq::empty()
    } else {
        let rest = spec_restored_list(varr.drop_last(), sarr);
        if varr.last() is Arr {
            rest.push(JModel::Obj(spec_restore_dict(varr.last()->Arr_0, sarr)))
        } else {
            rest
        }
    }
}

/// Whether a table name is in the packed (`compact`-prefixed) form.
pub open spec fn is_compact_key(key: Seq<char>) -> bool {
    key.len() >= 7 && key.take(7) == "compact"@
}

/// The expanded name of a packed table: the suffix after `compact`, its
/// first character lowercased.
pub open spec fn decap_key(key: Seq<char>) -> Seq<char> {
    lower_char_of(key.skip(7)[0]) + key.skip(7).skip(1)
}

/// The JSON value the expanded rows of a compact table are stored as.
pub open spec fn rows_value(rs: Seq<Seq<(Seq<char>, JModel)>>) -> JModel {
    JModel::Arr(
        Seq::new(
            rs.len(),
            |i: int| if 0 <= i < rs.len() {
                JModel::Obj(rs[i])
            } else {
                JModel::Null
            },
        ),
    )
}

/// The restorer's running state: the map of expanded compact tables, the
/// map of processed plain tables, and the set of names already produced
/// from compact form (which shadow later plain entries).
pub struct RestoreAcc {
    pub rcm: Seq<(Seq<char>, JModel)>,
    pub pd: Seq<(Seq<char>, JModel)>,
    pub rfc: Set<Seq<char>>,
}

/// One step of the restorer over the entry `key -> value`.
pub open spec fn spec_restorer_step(
    st: RestoreAcc,
    key: Seq<char>,
    value: JModel,
    structures: Seq<(Seq<char>, JModel)>,
) -> RestoreAcc {
    if is_compact_key(key) {
        let rcm1 = obj_insert(st.rcm, key, value);
        if value is Obj && key.skip(7).len() > 0 {
            let nk = decap_key(key);
            RestoreAcc {
                rcm: obj_insert(rcm1, nk, rows_value(spec_restore_compact(value->Obj_0))),
                pd: st.pd,
                rfc: st.rfc.insert(nk),
            }
        } else {
            RestoreAcc { rcm: rcm1, pd: st.pd, rfc: st.rfc }
        }
    } else if st.rfc.contains(key) {
        if key == "eventCards"@ {
            match obj_get(st.rcm, key) {
                Some(cv) => if cv is Arr && value is Arr {
                    RestoreAcc {
                        rcm: obj_insert(
                            st.rcm,
                            key,
                            JModel::Arr(spec_merge_rows(value->Arr_0, cv->Arr_0)),
                        ),
                        pd: st.pd,
                        rfc: st.rfc,
                    }
                } else {
                    st
                },
                None => st,
            }
        } else {
            st
        }
    } else {
        let pd1 = match obj_get(structures, key) {
            Some(structure) => if value is Arr && structure is Arr {
                obj_insert(
                    st.pd,
                    key,
                    JModel::Arr(spec_restored_list(value->Arr_0, structure->Arr_0)),
                )
            } else {
                obj_insert(st.pd, key, value)
            },
            None => obj_insert(st.pd, key, value),
        };
        let pd2 = if key == "eventCards"@ {
            match obj_get(pd1, key) {
                Some(pv) => if pv is Arr && value is Arr {
                    obj_insert(pd1, key, JModel::Arr(spec_merge_rows(value->Arr_0, pv->Arr_0)))
                } else {
                    pd1
                },
                None => pd1,
            }
        } else {
            pd1
        };
        RestoreAcc { rcm: st.rcm, pd: pd2, rfc: st.rfc }
    }
}

/// The restorer's state after the first `n` entries of the bundle.
pub open spec fn spec_restorer_run(
    d: Seq<(Seq<char>, JModel)>,
    structures: Seq<(Seq<char>, JModel)>,
    n: int,
) -> RestoreAcc
    decreases n,
{
    if n <= 0 {
        RestoreAcc { rcm: Seq::empty(), pd: Seq::empty(), rfc: Set::empty() }
    } else {
        let prev = spec_restorer_run(d, structures, n - 1);
        spec_restorer_step(prev, d[n - 1].0, d[n - 1].1, structures)
    }
}

/// The final merge: processed entries are appended, in order, under keys
/// the compact map does not already hold; a processed `eventCards` list
/// merges into a compact-derived one instead of being dropped.
pub open spec fn spec_merge_tail(
    rcm: Seq<(Seq<char>, JModel)>,
    pd: Seq<(Seq<char>, JModel)>,
    n: int,
) -> Seq<(Seq<char>, JModel)>
    decreases n,
{
    if n <= 0 {
        rcm
    } else {
        let prev = spec_merge_tail(rcm, pd, n - 1);
        if obj_contains(prev, pd[n - 1].0) {
            if pd[n - 1].0 == "eventCards"@ {
                match obj_get(prev, pd[n - 1].0) {
                    Some(cv) => if cv is Arr && pd[n - 1].1 is Arr {
                        obj_insert(
                            prev,
                            pd[n - 1].0,
                            JModel::Arr(spec_merge_rows(pd[n - 1].1->Arr_0, cv->Arr_0)),
                        )
                    } else {
                        prev
                    },
                    None => prev,
                }
            } else {
                prev
            }
        } else {
            prev.push(pd[n - 1])
        }
    }
}

/// What `nuverse_master_restorer` returns for a bundle and its structures.
pub open spec fn spec_nuverse_restore(
    d: Seq<(Seq<char>, JModel)>,
    structures: Seq<(Seq<char>, JModel)>,
) -> Seq<(Seq<char>, JModel)> {
    let st = spec_restorer_run(d, structures, d.len() as int);
    spec_merge_tail(st.rcm, st.pd, st.pd.len() as int)
}

/// No key of the prefix is `key` when no key of the whole is.
proof fn lemma_take_not_contains(d: Seq<(Seq<char>, JModel)>, n: int, key: Seq<char>)
    requires
        0 <= n <= d.len(),
        forall|i: int| 0 <= i < n ==> d[i].0 != key,
    ensures
        !obj_contains(d.take(n), key),
{
    crate::value::lemma_obj_index_of(d.take(n), key);
    if obj_contains(d.take(n), key) {
        let w = obj_index_of(d.take(n), key);
        assert(d.take(n)[w].0 == key);
    }
}

/// Restorer passthrough: a bundle without packed (`compact`-prefixed)
/// keys, without any structure match, without an `eventCards` entry, and
/// with pairwise distinct keys comes back exactly as it went in.
pub proof fn lemma_restorer_passthrough(
    d: Seq<(Seq<char>, JModel)>,
    structures: Seq<(Seq<char>, JModel)>,
)
    requires
        forall|i: int| 0 <= i < d.len() ==> !is_compact_key(#[trigger] d[i].0),
        forall|i: int| 0 <= i < d.len() ==> !obj_contains(structures, #[trigger] d[i].0),
        forall|i: int| 0 <= i < d.len() ==> #[trigger] d[i].0 != "eventCards"@,
        forall|i: int, j: int| 0 <= i < j < d.len() ==> d[i].0 != d[j].0,
    ensures
        spec_nuverse_restore(d, structures) == d,
{
    lemma_passthrough_run(d, structures, d.len() as int);
    let st = spec_restorer_run(d, structures, d.len() as int);
    lemma_passthrough_merge(st.pd, d.len() as int);
    assert(spec_merge_tail(st.rcm, st.pd, st.pd.len() as int) =~= d);
}

/// Under the passthrough conditions the run only accumulates the entries.
proof fn lemma_passthrough_run(
    d: Seq<(Seq<char>, JModel)>,
    structures: Seq<(Seq<char>, JModel)>,
    n: int,
)
    requires
        0 <= n <= d.len(),
        forall|i: int| 0 <= i < d.len() ==> !is_compact_key(#[trigger] d[i].0),
        forall|i: int| 0 <= i < d.len() ==> !obj_contains(structures, #[trigger] d[i].0),
        forall|i: int| 0 <= i < d.len() ==> #[trigger] d[i].0 != "eventCards"@,
        forall|i: int, j: int| 0 <= i < j < d.len() ==> d[i].0 != d[j].0,
    ensures
        spec_restorer_run(d, structures, n) == (RestoreAcc {
            rcm: Seq::<(Seq<char>, JModel)>::empty(),
            pd: d.take(n),
            rfc: Set::<Seq<char>>::empty(),
        }),
    decreases n,
{
    if n <= 0 {
        assert(d.take(0) =~= Seq::<(Seq<char>, JModel)>::empty());
    } else {
        lemma_passthrough_run(d, structures, n - 1);
        let key = d[n - 1].0;
        let value = d[n - 1].1;
        crate::value::lemma_obj_index_of(structures, key);
        lemma_take_not_contains(d, n - 1, key);
        assert(obj_get(structures, key) is None);
        assert(obj_insert(d.take(n - 1), key, value) == d.take(n - 1).push((key, value)));
        assert(d.take(n - 1).push((key, value)) =~= d.take(n));
    }
}

/// Merging unique processed entries into an empty compact map keeps them.
proof fn lemma_passthrough_merge(pd: Seq<(Seq<char>, JModel)>, n: int)
    requires
        0 <= n <= pd.len(),
        forall|i: int, j: int| 0 <= i < j < pd.len() ==> pd[i].0 != pd[j].0,
    ensures
        spec_merge_tail(Seq::<(Seq<char>, JModel)>::empty(), pd, n) == pd.take(n),
    decreases n,
{
    if n <= 0 {
        assert(pd.take(0) =~= Seq::<(Seq<char>, JModel)>::empty());
    } else {
        lemma_passthrough_merge(pd, n - 1);
        lemma_take_not_contains(pd, n - 1, pd[n - 1].0);
        assert(pd.take(n - 1).push(pd[n - 1]) =~= pd.take(n));
    }
}

/// Whether some row of `s` carries the id `k`.
pub open spec fn id_in(s: Seq<JModel>, k: int) -> bool {
    exists|i: int| 0 <= i < s.len() && spec_card_id(s[i]) == Some(k)
}

/// Whether the rows of `s` are sorted by their sort key, ascending.
pub open spec fn sorted_by_id(s: Seq<JModel>) -> bool {
    forall|i: int, j: int| 0 <= i < j < s.len() ==> spec_sort_key(s[i]) <= spec_sort_key(s[j])
}

/// Whether no two rows of `s` share an id.
pub open spec fn distinct_ids(s: Seq<JModel>) -> bool {
    forall|i: int, j: int|
        0 <= i < j < s.len() ==> !(spec_card_id(s[i]) is Some && spec_card_id(s[i])
            == spec_card_id(s[j]))
}

/// Insertion keeps a sorted list sorted and adds exactly the new row.
proof fn lemma_insert_by_id(sorted: Seq<JModel>, x: JModel)
    requires
        sorted_by_id(sorted),
    ensures
        sorted_by_id(insert_by_id(sorted, x)),
        insert_by_id(sorted, x).len() == sorted.len() + 1,
        forall|k: int| #[trigger] id_in(insert_by_id(sorted, x), k) == (id_in(sorted, k)
            || spec_card_id(x) == Some(k)),
    decreases sorted,
{
    let out = insert_by_id(sorted, x);
    if sorted.len() == 0 {
        assert forall|k: int| id_in(out, k) implies (id_in(sorted, k) || spec_card_id(x) == Some(
            k,
        )) by {
            let i = choose|i: int| 0 <= i < out.len() && spec_card_id(out[i]) == Some(k);
            assert(out[i] == x);
        }
        assert forall|k: int| spec_card_id(x) == Some(k) implies id_in(out, k) by {
            assert(spec_card_id(out[0]) == Some(k));
        }
    } else if spec_sort_key(sorted.last()) <= spec_sort_key(x) {
        assert(out == sorted.push(x));
        assert forall|k: int| id_in(out, k) implies (id_in(sorted, k) || spec_card_id(x) == Some(
            k,
        )) by {
            let i = choose|i: int| 0 <= i < out.len() && spec_card_id(out[i]) == Some(k);
            if i < sorted.len() {
                assert(out[i] == sorted[i]);
            } else {
                assert(out[i] == x);
            }
        }
        assert forall|k: int| id_in(sorted, k) || spec_card_id(x) == Some(k) implies id_in(
            out,
            k,
        ) by {
            if id_in(sorted, k) {
                let i = choose|i: int| 0 <= i < sorted.len() && spec_card_id(sorted[i]) == Some(
                    k,
                );
                assert(spec_card_id(out[i]) == Some(k));
            } else {
                assert(spec_card_id(out[sorted.len() as int]) == Some(k));
            }
        }
    } else {
        assert(sorted_by_id(sorted.drop_last())) by {
            assert(forall|i: int|
                0 <= i < sorted.len() - 1 ==> #[trigger] sorted.drop_last()[i] == sorted[i]);
        }
        lemma_insert_by_id(sorted.drop_last(), x);
        let inner = insert_by_id(sorted.drop_last(), x);
        assert(out == inner.push(sorted.last()));
        assert(sorted_by_id(out)) by {
            assert(forall|i: int| 0 <= i < inner.len() ==> #[trigger] out[i] == inner[i]);
            assert(out.last() == sorted.last());
            assert forall|i: int| 0 <= i < inner.len() implies spec_sort_key(#[trigger] inner[i])
                <= spec_sort_key(sorted.last()) by {
                lemma_insert_members(sorted.drop_last(), x, i);
            }
        }
        assert forall|k: int| id_in(out, k) implies (id_in(sorted, k) || spec_card_id(x) == Some(
            k,
        )) by {
            let i = choose|i: int| 0 <= i < out.len() && spec_card_id(out[i]) == Some(k);
            if i < inner.len() {
                assert(id_in(inner, k)) by {
                    assert(spec_card_id(inner[i]) == Some(k));
                }
                if id_in(sorted.drop_last(), k) {
                    let w = choose|w: int|
                        0 <= w < sorted.len() - 1 && spec_card_id(sorted.drop_last()[w]) == Some(
                            k,
                        );
                    assert(spec_card_id(sorted[w]) == Some(k));
                }
            } else {
                assert(out[i] == sorted.last());
                assert(spec_card_id(sorted[sorted.len() - 1]) == Some(k));
            }
        }
        assert forall|k: int| id_in(sorted, k) || spec_card_id(x) == Some(k) implies id_in(
            out,
            k,
        ) by {
            if id_in(sorted, k) {
                let i = choose|i: int| 0 <= i < sorted.len() && spec_card_id(sorted[i]) == Some(
                    k,
                );
                if i < sorted.len() - 1 {
                    assert(spec_card_id(sorted.drop_last()[i]) == Some(k));
                    assert(id_in(sorted.drop_last(), k));
                    assert(id_in(inner, k));
                    let w = choose|w: int|
                        0 <= w < inner.len() && spec_card_id(inner[w]) == Some(k);
                    assert(spec_card_id(out[w]) == Some(k));
                } else {
                    assert(spec_card_id(out[out.len() - 1]) == Some(k));
                }
            } else {
                assert(id_in(inner, k));
                let w = choose|w: int| 0 <= w < inner.len() && spec_card_id(inner[w]) == Some(k);
                assert(spec_card_id(out[w]) == Some(k));
            }
        }
    }
}

/// Every row of an insertion result is the new row or one of the old.
proof fn lemma_insert_members(sorted: Seq<JModel>, x: JModel, i: int)
    requires
        0 <= i < insert_by_id(sorted, x).len(),
    ensures
        insert_by_id(sorted, x)[i] == x || exists|w: int|
            0 <= w < sorted.len() && sorted[w] == insert_by_id(sorted, x)[i],
    decreases sorted,
{
    let out = insert_by_id(sorted, x);
    if sorted.len() == 0 {
    } else if spec_sort_key(sorted.last()) <= spec_sort_key(x) {
        if i < sorted.len() {
            assert(sorted[i] == out[i]);
        }
    } else {
        let inner = insert_by_id(sorted.drop_last(), x);
        if i < inner.len() {
            lemma_insert_members(sorted.drop_last(), x, i);
            if inner[i] != x {
                let w = choose|w: int|
                    0 <= w < sorted.len() - 1 && sorted.drop_last()[w] == inner[i];
                assert(sorted[w] == out[i]);
            }
        } else {
            assert(out[i] == sorted.last());
            assert(sorted[sorted.len() - 1] == out[i]);
        }
    }
}

/// The stable sort is sorted, keeps the length, and keeps exactly the ids.
proof fn lemma_sort_by_id(s: Seq<JModel>)
    ensures
        sorted_by_id(spec_sort_by_id(s)),
        spec_sort_by_id(s).len() == s.len(),
        forall|k: int| #[trigger] id_in(spec_sort_by_id(s), k) == id_in(s, k),
    decreases s,
{
    if s.len() > 0 {
        lemma_sort_by_id(s.drop_last());
        lemma_insert_by_id(spec_sort_by_id(s.drop_last()), s.last());
        assert forall|k: int| id_in(spec_sort_by_id(s), k) == id_in(s, k) by {
            assert(id_in(spec_sort_by_id(s), k) == (id_in(spec_sort_by_id(s.drop_last()), k)
                || spec_card_id(s.last()) == Some(k)));
            assert(id_in(s.drop_last(), k) || spec_card_id(s.last()) == Some(k) ==> id_in(
                s,
                k,
            )) by {
                if id_in(s.drop_last(), k) {
                    let i = choose|i: int|
                        0 <= i < s.len() - 1 && spec_card_id(s.drop_last()[i]) == Some(k);
                    assert(spec_card_id(s[i]) == Some(k));
                } else if spec_card_id(s.last()) == Some(k) {
                    assert(spec_card_id(s[s.len() - 1]) == Some(k));
                }
            }
            assert(id_in(s, k) ==> id_in(s.drop_last(), k) || spec_card_id(s.last()) == Some(
                k,
            )) by {
                if id_in(s, k) {
                    let i = choose|i: int| 0 <= i < s.len() && spec_card_id(s[i]) == Some(k);
                    if i < s.len() - 1 {
                        assert(spec_card_id(s.drop_last()[i]) == Some(k));
                    }
                }
            }
        }
    }
}

/// The ids collected from a list are exactly the ids its rows carry.
proof fn lemma_existing_ids(s: Seq<JModel>, k: int)
    ensures
        existing_ids(s).contains(k) == id_in(s, k),
    decreases s,
{
    if s.len() > 0 {
        lemma_existing_ids(s.drop_last(), k);
        assert(id_in(s.drop_last(), k) || spec_card_id(s.last()) == Some(k) ==> id_in(s, k)) by {
            if id_in(s.drop_last(), k) {
                let i = choose|i: int|
                    0 <= i < s.len() - 1 && spec_card_id(s.drop_last()[i]) == Some(k);
                assert(spec_card_id(s[i]) == Some(k));
            } else if spec_card_id(s.last()) == Some(k) {
                assert(spec_card_id(s[s.len() - 1]) == Some(k));
            }
        }
        assert(id_in(s, k) ==> id_in(s.drop_last(), k) || spec_card_id(s.last()) == Some(k)) by {
            if id_in(s, k) {
                let i = choose|i: int| 0 <= i < s.len() && spec_card_id(s[i]) == Some(k);
                if i < s.len() - 1 {
                    assert(spec_card_id(s.drop_last()[i]) == Some(k));
                }
            }
        }
    }
}

/// Each filtered row comes from the input and its id is not excluded.
proof fn lemma_filter_new_members(items: Seq<JModel>, ids: Set<int>, i: int)
    requires
        0 <= i < filter_new(items, ids).len(),
    ensures
        exists|w: int| 0 <= w < items.len() && items[w] == filter_new(items, ids)[i],
        spec_card_id(filter_new(items, ids)[i]) matches Some(k) ==> !ids.contains(k),
    decreases items,
{
    let out = filter_new(items, ids);
    if items.len() > 0 {
        let rest = filter_new(items.drop_last(), ids);
        if i < rest.len() {
            lemma_filter_new_members(items.drop_last(), ids, i);
            let w = choose|w: int|
                0 <= w < items.len() - 1 && items.drop_last()[w] == rest[i];
            assert(items[w] == out[i]);
        } else {
            assert(out[i] == items.last());
            assert(items[items.len() - 1] == out[i]);
        }
    }
}

/// The merged and sorted `eventCards` list: given rows that all carry ids,
/// unique on each side, the result is sorted ascending by `cardId` and no
/// two rows share an id — raw rows whose id already exists among the
/// existing rows were dropped.
pub proof fn lemma_event_cards_merge(varr: Seq<JModel>, parr: Seq<JModel>)
    requires
        forall|i: int| 0 <= i < varr.len() ==> spec_card_id(#[trigger] varr[i]) is Some,
        forall|i: int| 0 <= i < parr.len() ==> spec_card_id(#[trigger] parr[i]) is Some,
        distinct_ids(varr),
        distinct_ids(parr),
    ensures
        sorted_by_id(spec_merge_rows(varr, parr)),
        distinct_ids(spec_merge_rows(varr, parr)),
{
    let ids = existing_ids(parr);
    let fil = filter_new(varr, ids);
    let pre = fil + parr;
    lemma_sort_by_id(pre);
    assert(distinct_ids(pre)) by {
        lemma_filter_distinct(varr, ids);
        assert forall|i: int, j: int| 0 <= i < j < pre.len() implies !(spec_card_id(pre[i])
            is Some && spec_card_id(pre[i]) == spec_card_id(pre[j])) by {
            if j < fil.len() {
                assert(pre[i] == fil[i] && pre[j] == fil[j]);
            } else if i >= fil.len() {
                assert(pre[i] == parr[i - fil.len()] && pre[j] == parr[j - fil.len()]);
            } else {
                assert(pre[i] == fil[i] && pre[j] == parr[j - fil.len()]);
                lemma_filter_new_members(varr, ids, i);
                if spec_card_id(fil[i]) is Some {
                    let k = spec_card_id(fil[i])->Some_0;
                    lemma_existing_ids(parr, k);
                    if spec_card_id(pre[j]) == Some(k) {
                        assert(id_in(parr, k)) by {
                            assert(spec_card_id(parr[j - fil.len()]) == Some(k));
                        }
                    }
                }
            }
        }
    }
    lemma_sort_distinct(pre);
}

/// Filtering keeps the ids pairwise distinct.
proof fn lemma_filter_distinct(items: Seq<JModel>, ids: Set<int>)
    requires
        distinct_ids(items),
    ensures
        distinct_ids(filter_new(items, ids)),
{
    let out = filter_new(items, ids);
    assert forall|i: int, j: int| 0 <= i < j < out.len() implies !(spec_card_id(out[i]) is Some
        && spec_card_id(out[i]) == spec_card_id(out[j])) by {
        lemma_filter_new_members(items, ids, i);
        lemma_filter_new_members(items, ids, j);
        if spec_card_id(out[i]) is Some && spec_card_id(out[i]) == spec_card_id(out[j]) {
            let wi = choose|w: int| 0 <= w < items.len() && items[w] == out[i];
            let wj = choose|w: int| 0 <= w < items.len() && items[w] == out[j];
            lemma_filter_order(items, ids, i, j);
        }
    }
}

/// Two distinct filtered positions come from distinct input positions.
proof fn lemma_filter_order(items: Seq<JModel>, ids: Set<int>, i: int, j: int)
    requires
        0 <= i < j < filter_new(items, ids).len(),
        distinct_ids(items),
    ensures
        !(spec_card_id(filter_new(items, ids)[i]) is Some && spec_card_id(
            filter_new(items, ids)[i],
        ) == spec_card_id(filter_new(items, ids)[j])),
    decreases items,
{
    let out = filter_new(items, ids);
    if items.len() > 0 {
        let rest = filter_new(items.drop_last(), ids);
        assert(distinct_ids(items.drop_last())) by {
            assert(forall|w: int|
                0 <= w < items.len() - 1 ==> #[trigger] items.drop_last()[w] == items[w]);
        }
        if j < rest.len() {
            lemma_filter_order(items.drop_last(), ids, i, j);
        } else {
            assert(out[j] == items.last());
            lemma_filter_new_members(items.drop_last(), ids, i);
            assert(out[i] == rest[i]);
            let w = choose|w: int| 0 <= w < items.len() - 1 && items.drop_last()[w] == rest[i];
            assert(items[w] == out[i]);
            assert(items[items.len() - 1] == out[j]);
        }
    }
}

/// Sorting keeps the ids pairwise distinct.
proof fn lemma_sort_distinct(s: Seq<JModel>)
    requires
        distinct_ids(s),
    ensures
        distinct_ids(spec_sort_by_id(s)),
    decreases s,
{
    if s.len() > 0 {
        assert(distinct_ids(s.drop_last())) by {
            assert(forall|w: int|
                0 <= w < s.len() - 1 ==> #[trigger] s.drop_last()[w] == s[w]);
        }
        lemma_sort_distinct(s.drop_last());
        lemma_sort_by_id(s.drop_last());
        lemma_insert_by_id(spec_sort_by_id(s.drop_last()), s.last());
        let inner = spec_sort_by_id(s.drop_last());
        let out = spec_sort_by_id(s);
        assert(out == insert_by_id(inner, s.last()));
        assert forall|i: int, j: int| 0 <= i < j < out.len() implies !(spec_card_id(out[i])
            is Some && spec_card_id(out[i]) == spec_card_id(out[j])) by {
            lemma_insert_members(inner, s.last(), i);
            lemma_insert_members(inner, s.last(), j);
            if spec_card_id(out[i]) is Some && spec_card_id(out[i]) == spec_card_id(out[j]) {
                let k = spec_card_id(out[i])->Some_0;
                if out[i] == s.last() && out[j] == s.last() {
                    lemma_insert_count(inner, s.last(), i, j);
                    let w = choose|w: int| 0 <= w < inner.len() && inner[w] == s.last();
                    assert(id_in(inner, k)) by {
                        assert(spec_card_id(inner[w]) == Some(k));
                    }
                    assert(id_in(s.drop_last(), k));
                    let u = choose|u: int|
                        0 <= u < s.len() - 1 && spec_card_id(s.drop_last()[u]) == Some(k);
                    assert(spec_card_id(s[u]) == Some(k));
                    assert(spec_card_id(s[s.len() - 1]) == Some(k));
                } else if out[i] == s.last() {
                    let w = choose|w: int| 0 <= w < inner.len() && inner[w] == out[j];
                    assert(id_in(inner, k)) by {
                        assert(spec_card_id(inner[w]) == Some(k));
                    }
                    assert(id_in(s.drop_last(), k));
                    let u = choose|u: int|
                        0 <= u < s.len() - 1 && spec_card_id(s.drop_last()[u]) == Some(k);
                    assert(spec_card_id(s[u]) == Some(k));
                    assert(spec_card_id(s[s.len() - 1]) == Some(k));
                } else if out[j] == s.last() {
                    let w = choose|w: int| 0 <= w < inner.len() && inner[w] == out[i];
                    assert(id_in(inner, k)) by {
                        assert(spec_card_id(inner[w]) == Some(k));
                    }
                    assert(id_in(s.drop_last(), k));
                    let u = choose|u: int|
                        0 <= u < s.len() - 1 && spec_card_id(s.drop_last()[u]) == Some(k);
                    assert(spec_card_id(s[u]) == Some(k));
                    assert(spec_card_id(s[s.len() - 1]) == Some(k));
                } else {
                    let wi = choose|w: int| 0 <= w < inner.len() && inner[w] == out[i];
                    let wj = choose|w: int| 0 <= w < inner.len() && inner[w] == out[j];
                    if wi != wj {
                        if wi < wj {
                            assert(!(spec_card_id(inner[wi]) is Some && spec_card_id(inner[wi])
                                == spec_card_id(inner[wj])));
                        } else {
                            assert(!(spec_card_id(inner[wj]) is Some && spec_card_id(inner[wj])
                                == spec_card_id(inner[wi])));
                        }
                    } else {
                        lemma_insert_one_new(inner, s.last(), i, j);
                    }
                }
            }
        }
    }
}

/// Insertion adds the new row at exactly one position.
proof fn lemma_insert_count(sorted: Seq<JModel>, x: JModel, i: int, j: int)
    requires
        0 <= i < j < insert_by_id(sorted, x).len(),
        insert_by_id(sorted, x)[i] == x,
        insert_by_id(sorted, x)[j] == x,
    ensures
        exists|w: int| 0 <= w < sorted.len() && sorted[w] == x,
    decreases sorted,
{
    let out = insert_by_id(sorted, x);
    if sorted.len() == 0 {
    } else if spec_sort_key(sorted.last()) <= spec_sort_key(x) {
        assert(sorted[i] == x);
    } else {
        let inner = insert_by_id(sorted.drop_last(), x);
        if j < inner.len() {
            lemma_insert_count(sorted.drop_last(), x, i, j);
            let w = choose|w: int| 0 <= w < sorted.len() - 1 && sorted.drop_last()[w] == x;
            assert(sorted[w] == x);
        } else {
            assert(out[j] == sorted.last());
            assert(sorted[sorted.len() - 1] == x);
        }
    }
}

/// Two positions of an insertion that map to the same old position are
/// not both distinct occurrences unless the row equals the inserted one.
proof fn lemma_insert_one_new(sorted: Seq<JModel>, x: JModel, i: int, j: int)
    requires
        0 <= i < j < insert_by_id(sorted, x).len(),
        insert_by_id(sorted, x)[i] != x,
        insert_by_id(sorted, x)[j] != x,
        distinct_ids(sorted),
    ensures
        !(spec_card_id(insert_by_id(sorted, x)[i]) is Some && spec_card_id(
            insert_by_id(sorted, x)[i],
        ) == spec_card_id(insert_by_id(sorted, x)[j])),
    decreases sorted,
{
    let out = insert_by_id(sorted, x);
    if sorted.len() == 0 {
    } else if spec_sort_key(sorted.last()) <= spec_sort_key(x) {
        assert(out[i] == sorted[i]);
        if j < sorted.len() {
            assert(out[j] == sorted[j]);
        } else {
            assert(out[j] == x);
        }
    } else {
        let inner = insert_by_id(sorted.drop_last(), x);
        if j < inner.len() {
            assert(distinct_ids(sorted.drop_last())) by {
                assert(forall|w: int|
                    0 <= w < sorted.len() - 1 ==> #[trigger] sorted.drop_last()[w] == sorted[w]);
            }
            lemma_insert_one_new(sorted.drop_last(), x, i, j);
        } else {
            assert(out[j] == sorted.last());
            if i < inner.len() {
                if spec_card_id(out[i]) is Some && spec_card_id(out[i]) == spec_card_id(
                    out[j],
                ) {
                    lemma_insert_members(sorted.drop_last(), x, i);
                    let w = choose|w: int|
                        0 <= w < sorted.len() - 1 && sorted.drop_last()[w] == inner[i];
                    assert(sorted[w] == out[i]);
                    assert(0 <= w < sorted.len() - 1 && spec_card_id(sorted[w]) is Some
                        && spec_card_id(sorted[w]) == spec_card_id(sorted[sorted.len() - 1]));
                }
            }
        }
    }
}

/// The row's sort key as an executable value.
fn card_key(x: &JsonVal) -> (r: i64)
    ensures
        r as int == spec_sort_key(x@),
{
    match x.as_object() {
        Some(o) => match o.get("cardId") {
            Some(v) => match v.as_i64() {
                Some(n) => n,
                None => 0,
            },
            None => 0,
        },
        None => 0,
    }
}

/// The row's `cardId` as an executable value.
fn card_id_opt(x: &JsonVal) -> (r: Option<i64>)
    ensures
        match r {
            Some(n) => spec_card_id(x@) == Some(n as int),
            None => spec_card_id(x@) is None,
        },
{
    match x.as_object() {
        Some(o) => match o.get("cardId") {
            Some(v) => v.as_i64(),
            None => None,
        },
        None => None,
    }
}

/// Insert one row into a sorted list, after every row whose key is at most
/// its own.
fn insert_sorted(sorted: Vec<JsonVal>, x: JsonVal) -> (r: Vec<JsonVal>)
    ensures
        models_of_jvals(r@) =~= insert_by_id(models_of_jvals(sorted@), x@),
    decreases sorted@.len(),
{
    let mut sorted = sorted;
    if sorted.len() == 0 {
        sorted.push(x);
        sorted
    } else {
        let lk = card_key(&sorted[sorted.len() - 1]);
        let xk = card_key(&x);
        proof {
            assert(models_of_jvals(sorted@).last() == sorted@.last().model());
        }
        if lk <= xk {
            sorted.push(x);
            sorted
        } else {
            let ghost before = sorted@;
            let last = match sorted.pop() {
                Some(l) => l,
                None => {
                    return sorted;
                }
            };
            proof {
                assert(models_of_jvals(sorted@) =~= models_of_jvals(before).drop_last());
            }
            let mut r = insert_sorted(sorted, x);
            r.push(last);
            proof {
                assert(models_of_jvals(r@) =~= insert_by_id(
                    models_of_jvals(before).drop_last(),
                    x@,
                ).push(before.last().model()));
            }
            r
        }
    }
}

/// Stable-sort the rows by `cardId` ascending.
fn sort_by_card_id(v: &Vec<JsonVal>) -> (r: Vec<JsonVal>)
    ensures
        models_of_jvals(r@) =~= spec_sort_by_id(models_of_jvals(v@)),
{
    let ghost mv = models_of_jvals(v@);
    let mut out: Vec<JsonVal> = Vec::new();
    let n = v.len();
    let mut i: usize = 0;
    while i < n
        invariant
            i <= n,
            n == v@.len(),
            mv == models_of_jvals(v@),
            models_of_jvals(out@) =~= spec_sort_by_id(mv.take(i as int)),
        decreases n - i,
    {
        proof {
            assert(mv.take(i + 1).drop_last() =~= mv.take(i as int));
            assert(mv.take(i + 1).last() == mv[i as int]);
            assert(mv[i as int] == v@[i as int].model());
        }
        let x = v[i].dup();
        out = insert_sorted(out, x);
        i += 1;
    }
    proof {
        assert(mv.take(n as int) =~= mv);
    }
    out
}

/// Merge raw rows into an existing list: raw rows whose `cardId` already
/// appears among the existing rows are dropped, the rest precede the
/// existing rows, and the whole is stable-sorted by `cardId`.
#[verifier::loop_isolation(false)]
fn merge_event_rows(raw: &Vec<JsonVal>, existing: &Vec<JsonVal>) -> (r: Vec<JsonVal>)
    ensures
        models_of_jvals(r@) =~= spec_merge_rows(
            models_of_jvals(raw@),
            models_of_jvals(existing@),
        ),
{
    let ghost mvarr = models_of_jvals(raw@);
    let ghost mparr = models_of_jvals(existing@);
    let mut ids: Vec<i64> = Vec::new();
    let pn = existing.len();
    let mut t2: usize = 0;
    while t2 < pn
        invariant
            t2 <= pn,
            forall|z: int| existing_ids(mparr.take(t2 as int)).contains(z) == in_id_vec(ids@, z),
        decreases pn - t2,
    {
        proof {
            assert(mparr.take(t2 + 1).drop_last() =~= mparr.take(t2 as int));
            assert(mparr.take(t2 + 1).last() == mparr[t2 as int]);
            assert(mparr[t2 as int] == existing@[t2 as int].model());
        }
        let ghost ids_before = ids@;
        match card_id_opt(&existing[t2]) {
            Some(idv) => {
                ids.push(idv);
                proof {
                    assert(existing_ids(mparr.take(t2 + 1)) == existing_ids(
                        mparr.take(t2 as int),
                    ).insert(idv as int));
                    assert forall|z: int|
                        in_id_vec(ids@, z) == (in_id_vec(ids_before, z) || z
                            == idv as int) by {
                        assert(forall|u: int|
                            0 <= u < ids_before.len() ==> ids@[u] == ids_before[u]);
                        assert(ids@[ids_before.len() as int] == idv);
                        if in_id_vec(ids@, z) {
                            let w = choose|w: int|
                                0 <= w < ids@.len() && ids@[w] as int == z;
                            if w < ids_before.len() {
                                assert(in_id_vec(ids_before, z));
                            }
                        }
                        if in_id_vec(ids_before, z) {
                            let w = choose|w: int|
                                0 <= w < ids_before.len() && ids_before[w] as int == z;
                            assert(ids@[w] as int == z);
                        }
                        if z == idv as int {
                            assert(ids@[ids_before.len() as int] as int == z);
                        }
                    }
                }
            }
            None => {
                proof {
                    assert(existing_ids(mparr.take(t2 + 1)) == existing_ids(
                        mparr.take(t2 as int),
                    ));
                }
            }
        }
        proof {
            assert forall|z: int|
                existing_ids(mparr.take(t2 + 1)).contains(z) == in_id_vec(ids@, z) by {
                assert(existing_ids(mparr.take(t2 as int)).contains(z) == in_id_vec(
                    ids_before,
                    z,
                ));
            }
        }
        t2 += 1;
    }
    proof {
        assert(mparr.take(pn as int) =~= mparr);
    }
    let ghost gids = existing_ids(mparr);
    let mut merged: Vec<JsonVal> = Vec::new();
    let vn2 = raw.len();
    let mut t3: usize = 0;
    while t3 < vn2
        invariant
            t3 <= vn2,
            models_of_jvals(merged@) =~= filter_new(mvarr.take(t3 as int), gids),
        decreases vn2 - t3,
    {
        proof {
            assert(mvarr.take(t3 + 1).drop_last() =~= mvarr.take(t3 as int));
            assert(mvarr.take(t3 + 1).last() == mvarr[t3 as int]);
            assert(mvarr[t3 as int] == raw@[t3 as int].model());
        }
        let ghost mprev = merged@;
        let keep = match card_id_opt(&raw[t3]) {
            Some(idv) => !id_vec_contains(&ids, idv),
            None => true,
        };
        if keep {
            let d = raw[t3].dup();
            merged.push(d);
            proof {
                assert(models_of_jvals(merged@) =~= models_of_jvals(mprev).push(
                    mvarr[t3 as int],
                ));
            }
        }
        t3 += 1;
    }
    proof {
        assert(mvarr.take(vn2 as int) =~= mvarr);
    }
    let pn2 = existing.len();
    let mut t4: usize = 0;
    let ghost filtered = models_of_jvals(merged@);
    while t4 < pn2
        invariant
            t4 <= pn2,
            models_of_jvals(merged@) =~= filtered + mparr.take(t4 as int),
        decreases pn2 - t4,
    {
        proof {
            assert(mparr[t4 as int] == existing@[t4 as int].model());
        }
        let ghost mprev = merged@;
        let d = existing[t4].dup();
        merged.push(d);
        proof {
            assert(models_of_jvals(merged@) =~= models_of_jvals(mprev).push(mparr[t4 as int]));
            assert(filtered + mparr.take(t4 + 1) =~= (filtered + mparr.take(t4 as int)).push(
                mparr[t4 as int],
            ));
        }
        t4 += 1;
    }
    proof {
        assert(mparr.take(pn2 as int) =~= mparr);
        assert(models_of_jvals(merged@) =~= filter_new(mvarr, gids) + mparr);
    }
    sort_by_card_id(&merged)
}

/// Whether `id` is one of the collected identifiers.
pub open spec fn in_id_vec(s: Seq<i64>, z: int) -> bool {
    exists|t: int| 0 <= t < s.len() && s[t] as int == z
}

/// Executable membership test against the collected identifiers.
fn id_vec_contains(ids: &Vec<i64>, id: i64) -> (r: bool)
    ensures
        r == in_id_vec(ids@, id as int),
{
    let mut t: usize = 0;
    while t < ids.len()
        invariant
            t <= ids@.len(),
            forall|u: int| 0 <= u < t ==> ids@[u] != id,
        decreases ids@.len() - t,
    {
        if ids[t] == id {
            return true;
        }
        t += 1;
    }
    false
}


/// Whether the characters start with the given prefix.
fn chars_have_prefix(kc: &Vec<char>, pref: &Vec<char>) -> (r: bool)
    ensures
        r == (kc@.len() >= pref@.len() && kc@.take(pref@.len() as int) == pref@),
{
    if kc.len() < pref.len() {
        return false;
    }
    let mut t: usize = 0;
    while t < pref.len()
        invariant
            t <= pref@.len(),
            pref@.len() <= kc@.len(),
            forall|u: int| 0 <= u < t ==> kc@[u] == pref@[u],
        decreases pref@.len() - t,
    {
        if kc[t] != pref[t] {
            proof {
                assert(kc@.take(pref@.len() as int)[t as int] == kc@[t as int]);
            }
            return false;
        }
        t += 1;
    }
    proof {
        assert(kc@.take(pref@.len() as int) =~= pref@);
    }
    true
}

/// Restore a whole Nuverse master bundle, walking it in order. Keys with
/// the `compact` prefix are expanded by `restore_compact_data` and stored
/// again under the decapitalised suffix, shadowing any later plain entry
/// of that name. Other keys with a matching array structure are expanded
/// row by row with `restore_dict`. For `eventCards`, the restored rows are
/// merged with the raw rows, de-duplicating and stable-sorting by
/// `cardId`. The walk itself never fails.
#[verifier::rlimit(100)]
pub fn nuverse_master_restorer(master_data: &JsonMap, structures: &JsonMap) -> (r: Result<
    JsonMap,
    AppError,
>)
    ensures
        match r {
            Ok(m) => m@ == spec_nuverse_restore(master_data@, structures@),
            Err(_) => false,
        },
{
    let ghost gd = master_data@;
    let ghost gs = structures@;
    let compact_pref = str_chars("compact");
    proof {
        reveal_strlit("compact");
        assert(compact_pref@.len() == 7);
    }
    let event_key: String = "eventCards".to_owned();
    let mut rcm = JsonMap::new();
    let mut pd = JsonMap::new();
    let mut rfc = JsonMap::new();
    let n = master_data.len();
    let mut e: usize = 0;
    while e < n
        invariant
            e <= n,
            n == gd.len(),
            gd == master_data@,
            gs == structures@,
            compact_pref@ == "compact"@,
            compact_pref@.len() == 7,
            event_key@ == "eventCards"@,
            rcm@ == spec_restorer_run(gd, gs, e as int).rcm,
            pd@ == spec_restorer_run(gd, gs, e as int).pd,
            forall|z: Seq<char>|
                spec_restorer_run(gd, gs, e as int).rfc.contains(z) == obj_contains(rfc@, z),
        decreases n - e,
    {
        let ghost st = spec_restorer_run(gd, gs, e as int);
        let ghost st1 = spec_restorer_run(gd, gs, e + 1);
        proof {
            assert(st1 == spec_restorer_step(st, gd[e as int].0, gd[e as int].1, gs));
        }
        let (key, value) = master_data.entry_at(e);
        let kc = str_chars(key.as_str());
        let is_compact = chars_have_prefix(&kc, &compact_pref);
        proof {
            assert(is_compact == is_compact_key(key@));
        }
        if is_compact {
            rcm.insert(key.clone(), value.dup());
            if let JsonVal::Obj(data_map) = value {
                if kc.len() > 7 {
                    let mut suffix: Vec<char> = Vec::new();
                    let mut u: usize = 7;
                    while u < kc.len()
                        invariant
                            7 <= u <= kc@.len(),
                            suffix@ =~= kc@.subrange(7, u as int),
                        decreases kc@.len() - u,
                    {
                        suffix.push(kc[u]);
                        u += 1;
                    }
                    proof {
                        assert(suffix@ =~= key@.skip(7));
                    }
                    let mut nk_chars = lowercase_char(suffix[0]);
                    let mut w: usize = 1;
                    while w < suffix.len()
                        invariant
                            1 <= w <= suffix@.len(),
                            suffix@.len() >= 1,
                            nk_chars@ =~= lower_char_of(suffix@[0]) + suffix@.subrange(
                                1,
                                w as int,
                            ),
                        decreases suffix@.len() - w,
                    {
                        nk_chars.push(suffix[w]);
                        w += 1;
                    }
                    proof {
                        assert(nk_chars@ =~= decap_key(key@));
                    }
                    let new_key = chars_to_string(&nk_chars);
                    let rows = restore_compact_data(data_map);
                    let mut row_vals: Vec<JsonVal> = Vec::new();
                    let mut q: usize = 0;
                    while q < rows.len()
                        invariant
                            q <= rows@.len(),
                            row_vals@.len() == q,
                            forall|u: int|
                                0 <= u < q ==> row_vals@[u].model() == JModel::Obj(rows@[u]@),
                        decreases rows@.len() - q,
                    {
                        row_vals.push(JsonVal::Obj(rows[q].dup()));
                        q += 1;
                    }
                    proof {
                        assert(models_of_jvals(row_vals@) =~= rows_value(
                            spec_restore_compact(data_map@),
                        )->Arr_0) by {
                            assert(crate::restore::models_of_jmaps(rows@) == spec_restore_compact(
                                data_map@,
                            ));
                        }
                    }
                    let ghost rfc_before = rfc@;
                    rcm.insert(new_key.clone(), JsonVal::Arr(row_vals));
                    proof {
                        assert(JsonVal::Arr(row_vals)@->Arr_0 =~= models_of_jvals(row_vals@));
                    }
                    rfc.insert(new_key, JsonVal::Null);
                    proof {
                        assert forall|z: Seq<char>| st1.rfc.contains(z) == obj_contains(
                            rfc@,
                            z,
                        ) by {
                            lemma_obj_insert_contains(rfc_before, decap_key(key@), JModel::Null, z);
                        }
                    }
                }
            }
        } else {
            let in_rfc = rfc.contains_key(key.as_str());
            if !in_rfc {
                let sv = structures.get(key.as_str());
                match sv {
                    Some(structure) => {
                        let mut plain = true;
                        if let JsonVal::Arr(varr) = value {
                            if let JsonVal::Arr(sarr) = structure {
                                plain = false;
                                let ghost mvarr = models_of_jvals(varr@);
                                let ghost msarr = models_of_jvals(sarr@);
                                proof {
                                    assert(gd[e as int].1->Arr_0 =~= mvarr);
                                    assert(structure@->Arr_0 =~= msarr);
                                }
                                let mut restored: Vec<JsonVal> = Vec::new();
                                let vn = varr.len();
                                let mut j: usize = 0;
                                while j < vn
                                    invariant
                                        j <= vn,
                                        vn == varr@.len(),
                                        mvarr == models_of_jvals(varr@),
                                        msarr == models_of_jvals(sarr@),
                                        models_of_jvals(restored@) =~= spec_restored_list(
                                            mvarr.take(j as int),
                                            msarr,
                                        ),
                                    decreases vn - j,
                                {
                                    proof {
                                        assert(mvarr.take(j + 1).drop_last() =~= mvarr.take(
                                            j as int,
                                        ));
                                        assert(mvarr.take(j + 1).last() == mvarr[j as int]);
                                        assert(mvarr[j as int] == varr@[j as int].model());
                                    }
                                    let ghost rprev = restored@;
                                    if let JsonVal::Arr(ia) = &varr[j] {
                                        let m = restore_dict(ia.as_slice(), sarr.as_slice());
                                        proof {
                                            assert(mvarr[j as int]->Arr_0 =~= models_of_jvals(
                                                ia@,
                                            ));
                                        }
                                        restored.push(JsonVal::Obj(m));
                                        proof {
                                            assert(models_of_jvals(restored@)
                                                =~= models_of_jvals(rprev).push(JModel::Obj(m@)));
                                        }
                                    }
                                    j += 1;
                                }
                                proof {
                                    assert(mvarr.take(vn as int) =~= mvarr);
                                }
                                pd.insert(key.clone(), JsonVal::Arr(restored));
                                proof {
                                    assert(JsonVal::Arr(restored)@->Arr_0 =~= models_of_jvals(
                                        restored@,
                                    ));
                                }
                            }
                        }
                        if plain {
                            pd.insert(key.clone(), value.dup());
                        }
                    }
                    None => {
                        pd.insert(key.clone(), value.dup());
                    }
                }
                if key.eq(&event_key) {
                    let pv = pd.get(key.as_str());
                    let mut merged_opt: Option<Vec<JsonVal>> = None;
                    match pv {
                        Some(pval) => {
                            if let JsonVal::Arr(parr) = pval {
                                if let JsonVal::Arr(varr) = value {
                                    proof {
                                        assert(pval@->Arr_0 =~= models_of_jvals(parr@));
                                        assert(gd[e as int].1->Arr_0 =~= models_of_jvals(varr@));
                                    }
                                    merged_opt = Some(merge_event_rows(varr, parr));
                                }
                            }
                        }
                        None => {}
                    }
                    if let Some(sorted) = merged_opt {
                        proof {
                            assert(JsonVal::Arr(sorted)@->Arr_0 =~= models_of_jvals(sorted@));
                        }
                        pd.insert(key.clone(), JsonVal::Arr(sorted));
                    }
                }
            } else {
                if key.eq(&event_key) {
                    let cvopt = rcm.get(key.as_str());
                    let mut merged_opt: Option<Vec<JsonVal>> = None;
                    match cvopt {
                        Some(cval) => {
                            if let JsonVal::Arr(carr) = cval {
                                if let JsonVal::Arr(varr) = value {
                                    proof {
                                        assert(cval@->Arr_0 =~= models_of_jvals(carr@));
                                        assert(gd[e as int].1->Arr_0 =~= models_of_jvals(varr@));
                                    }
                                    merged_opt = Some(merge_event_rows(varr, carr));
                                }
                            }
                        }
                        None => {}
                    }
                    if let Some(sorted) = merged_opt {
                        proof {
                            assert(JsonVal::Arr(sorted)@->Arr_0 =~= models_of_jvals(sorted@));
                        }
                        rcm.insert(key.clone(), JsonVal::Arr(sorted));
                    }
                }
            }
        }
        proof {
            assert(rcm@ == st1.rcm);
            assert(pd@ == st1.pd);
            assert(forall|z: Seq<char>| st1.rfc.contains(z) == obj_contains(rfc@, z));
        }
        e += 1;
    }
    let ghost fin = spec_restorer_run(gd, gs, n as int);
    let mut out = rcm;
    let pn = pd.len();
    let mut t: usize = 0;
    while t < pn
        invariant
            t <= pn,
            pn == fin.pd.len(),
            pd@ == fin.pd,
            event_key@ == "eventCards"@,
            out@ == spec_merge_tail(fin.rcm, fin.pd, t as int),
        decreases pn - t,
    {
        let (k, v) = pd.entry_at(t);
        if !out.contains_key(k.as_str()) {
            out.insert(k.clone(), v.dup());
            proof {
                assert(out@ =~= spec_merge_tail(fin.rcm, fin.pd, t + 1));
            }
        } else {
            if k.eq(&event_key) {
                let cvopt = out.get(k.as_str());
                let mut merged_opt: Option<Vec<JsonVal>> = None;
                match cvopt {
                    Some(cval) => {
                        if let JsonVal::Arr(carr) = cval {
                            if let JsonVal::Arr(varr) = v {
                                proof {
                                    assert(cval@->Arr_0 =~= models_of_jvals(carr@));
                                    assert(fin.pd[t as int].1->Arr_0 =~= models_of_jvals(varr@));
                                }
                                merged_opt = Some(merge_event_rows(varr, carr));
                            }
                        }
                    }
                    None => {}
                }
                if let Some(sorted) = merged_opt {
                    proof {
                        assert(JsonVal::Arr(sorted)@->Arr_0 =~= models_of_jvals(sorted@));
                    }
                    out.insert(k.clone(), JsonVal::Arr(sorted));
                }
            }
            proof {
                assert(out@ =~= spec_merge_tail(fin.rcm, fin.pd, t + 1));
            }
        }
        t += 1;
    }
    Ok(out)
}

} // verus!
