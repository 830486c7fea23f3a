//! The aggregator: collects normalized records across many devices into
//! a three-level structure keyed by series, model and field name, each
//! level kept in strictly increasing lexicographic key order so that the
//! generated text is deterministic and diff-friendly.

use vstd::prelude::*;
use vstd::string::*;
use crate::actuator::{Actuator, ActuatorV};
use crate::errors::GenError;
use crate::records::{AccessLevel, ControlTableData, ControlTableDataV, RangeValueV};
use crate::text::{
    chars_of, dec_digits, dec_int, find_first_alpha, first_alpha_from, is_alnum_char, keep_alnum,
    lex_lt, render_i64, render_u64, str_eq, str_lex_lt, string_from_chars, sub_chars, upper_chars,
    upper_seq,
};

verus! {

/// Mathematical model of a `GenError`.
pub ghost enum GenErrorV {
    NoAlphabeticModelName { raw_name: Seq<char> },
}

impl View for GenError {
    type V = GenErrorV;

    open spec fn view(&self) -> GenErrorV {
        match self {
            GenError::NoAlphabeticModelName { raw_name } => GenErrorV::NoAlphabeticModelName {
                raw_name: raw_name@,
            },
        }
    }
}

/// One field of one model: the sanitized field name and its record.
pub struct FieldEntry {
    pub name: String,
    pub data: ControlTableData,
}

/// Mathematical model of a `FieldEntry`.
pub ghost struct FieldEntryV {
    pub name: Seq<char>,
    pub data: ControlTableDataV,
}

impl View for FieldEntry {
    type V = FieldEntryV;

    open spec fn view(&self) -> FieldEntryV {
        FieldEntryV { name: self.name@, data: self.data@ }
    }
}

impl DeepView for FieldEntry {
    type V = FieldEntryV;

    open spec fn deep_view(&self) -> FieldEntryV {
        self.view()
    }
}

/// One model of one series, with its fields in key order.
pub struct ModelEntry {
    pub model: String,
    pub fields: Vec<FieldEntry>,
}

/// Mathematical model of a `ModelEntry`.
pub ghost struct ModelEntryV {
    pub model: Seq<char>,
    pub fields: Seq<FieldEntryV>,
}

impl View for ModelEntry {
    type V = ModelEntryV;

    open spec fn view(&self) -> ModelEntryV {
        ModelEntryV { model: self.model@, fields: self.fields.deep_view() }
    }
}

impl DeepView for ModelEntry {
    type V = ModelEntryV;

    open spec fn deep_view(&self) -> ModelEntryV {
        self.view()
    }
}

/// One series, with its models in key order.
pub struct SeriesEntry {
    pub series: String,
    pub models: Vec<ModelEntry>,
}

/// Mathematical model of a `SeriesEntry`.
pub ghost struct SeriesEntryV {
    pub series: Seq<char>,
    pub models: Seq<ModelEntryV>,
}

impl View for SeriesEntry {
    type V = SeriesEntryV;

    open spec fn view(&self) -> SeriesEntryV {
        SeriesEntryV { series: self.series@, models: self.models.deep_view() }
    }
}

impl DeepView for SeriesEntry {
    type V = SeriesEntryV;

    open spec fn deep_view(&self) -> SeriesEntryV {
        self.view()
    }
}

impl DeepView for Actuator {
    type V = ActuatorV;

    open spec fn deep_view(&self) -> ActuatorV {
        self.view()
    }
}

/// First position at or after `i` whose key is not below `key`; the
/// length when every key is below it.
pub open spec fn lower_bound_from(keys: Seq<Seq<char>>, key: Seq<char>, i: int) -> int
    decreases keys.len() - i,
{
    if i < 0 || i >= keys.len() {
        keys.len() as int
    } else if !lex_lt(keys[i], key) {
        i
    } else {
        lower_bound_from(keys, key, i + 1)
    }
}

/// First position whose key is not below `key`.
pub open spec fn lower_bound(keys: Seq<Seq<char>>, key: Seq<char>) -> int {
    lower_bound_from(keys, key, 0)
}

pub open spec fn field_keys(fs: Seq<FieldEntryV>) -> Seq<Seq<char>> {
    fs.map_values(|f: FieldEntryV| f.name)
}

pub open spec fn model_keys(ms: Seq<ModelEntryV>) -> Seq<Seq<char>> {
    ms.map_values(|m: ModelEntryV| m.model)
}

pub open spec fn series_keys(ss: Seq<SeriesEntryV>) -> Seq<Seq<char>> {
    ss.map_values(|s: SeriesEntryV| s.series)
}

/// Sorted insertion of a field, overwriting on an equal name (last write
/// wins).
pub open spec fn insert_field(fs: Seq<FieldEntryV>, name: Seq<char>, data: ControlTableDataV)
    -> Seq<FieldEntryV> {
    let p = lower_bound(field_keys(fs), name);
    let e = FieldEntryV { name, data };
    if p < fs.len() && fs[p].name == name {
        fs.update(p, e)
    } else {
        fs.insert(p, e)
    }
}

/// Folds a device's records into a field map: each record with a present
/// field name is inserted under it.
pub open spec fn fields_into(fs: Seq<FieldEntryV>, records: Seq<ControlTableDataV>) -> Seq<
    FieldEntryV,
>
    decreases records.len(),
{
    if records.len() == 0 {
        fs
    } else {
        let fs1 = fields_into(fs, records.drop_last());
        match records.last().data_name {
            Some(n) => insert_field(fs1, n, records.last()),
            None => fs1,
        }
    }
}

/// Sorted insertion of a device's records under its model key; an
/// existing model entry absorbs the records into its fields.
pub open spec fn upd_models(
    ms: Seq<ModelEntryV>,
    model: Seq<char>,
    records: Seq<ControlTableDataV>,
) -> Seq<ModelEntryV> {
    let p = lower_bound(model_keys(ms), model);
    if p < ms.len() && ms[p].model == model {
        ms.update(p, ModelEntryV { model, fields: fields_into(ms[p].fields, records) })
    } else {
        ms.insert(p, ModelEntryV { model, fields: fields_into(Seq::empty(), records) })
    }
}

/// Sorted insertion of a device under its series key.
pub open spec fn upd_series(
    ss: Seq<SeriesEntryV>,
    series: Seq<char>,
    model: Seq<char>,
    records: Seq<ControlTableDataV>,
) -> Seq<SeriesEntryV> {
    let p = lower_bound(series_keys(ss), series);
    if p < ss.len() && ss[p].series == series {
        ss.update(p, SeriesEntryV { series, models: upd_models(ss[p].models, model, records) })
    } else {
        ss.insert(p, SeriesEntryV { series, models: upd_models(Seq::empty(), model, records) })
    }
}

/// The model key a raw device name yields: its alphanumeric characters,
/// those before the first letter dropped, upper-cased. A name without a
/// letter yields no model key.
pub open spec fn model_of(raw: Seq<char>) -> Seq<char> {
    let filtered = raw.filter(|c: char| is_alnum_char(c));
    let p = first_alpha_from(raw, 0);
    let k = if p <= filtered.len() {
        p
    } else {
        filtered.len() as int
    };
    upper_seq(filtered.skip(k))
}

/// The series key of a device: its series segment, upper-cased.
pub open spec fn series_of(series: Seq<char>) -> Seq<char> {
    upper_seq(series)
}

/// The aggregate of a device sequence: series, model and field maps in
/// key order, later devices folded in later.
pub open spec fn aggregate_spec(devs: Seq<ActuatorV>) -> Result<Seq<SeriesEntryV>, GenErrorV>
    decreases devs.len(),
{
    if devs.len() == 0 {
        Ok(Seq::empty())
    } else {
        match aggregate_spec(devs.drop_last()) {
            Err(e) => Err(e),
            Ok(ss) => {
                let d = devs.last();
                if first_alpha_from(d.raw_name, 0) < 0 {
                    Err(GenErrorV::NoAlphabeticModelName { raw_name: d.raw_name })
                } else {
                    Ok(upd_series(ss, series_of(d.series), model_of(d.raw_name), d.data))
                }
            },
        }
    }
}

/// An error on some prefix of the devices is the outcome for all of them.
proof fn lemma_aggregate_prefix_err(devs: Seq<ActuatorV>, k: int)
    requires
        0 <= k <= devs.len(),
        aggregate_spec(devs.take(k)) is Err,
    ensures
        aggregate_spec(devs) == aggregate_spec(devs.take(k)),
    decreases devs.len() - k,
{
    if k == devs.len() {
        assert(devs.take(k) =~= devs);
    } else {
        let t = devs.take(k + 1);
        assert(t.drop_last() =~= devs.take(k));
        assert(aggregate_spec(t) == aggregate_spec(devs.take(k)));
        lemma_aggregate_prefix_err(devs, k + 1);
    }
}

/// Sorted set insertion of a field name.
pub open spec fn insert_name(ns: Seq<Seq<char>>, n: Seq<char>) -> Seq<Seq<char>> {
    let p = lower_bound(ns, n);
    if p < ns.len() && ns[p] == n {
        ns
    } else {
        ns.insert(p, n)
    }
}

/// Folds a record sequence's field names into a sorted name set.
pub open spec fn names_into(ns: Seq<Seq<char>>, records: Seq<ControlTableDataV>) -> Seq<Seq<char>>
    decreases records.len(),
{
    if records.len() == 0 {
        ns
    } else {
        let ns1 = names_into(ns, records.drop_last());
        match records.last().data_name {
            Some(n) => insert_name(ns1, n),
            None => ns1,
        }
    }
}

/// The distinct field names across all devices, sorted.
pub open spec fn all_names(devs: Seq<ActuatorV>) -> Seq<Seq<char>>
    decreases devs.len(),
{
    if devs.len() == 0 {
        Seq::empty()
    } else {
        names_into(all_names(devs.drop_last()), devs.last().data)
    }
}

/// Inserts a field entry at its key position, overwriting an equal key.
fn insert_field_entry(fs: &mut Vec<FieldEntry>, name: String, data: ControlTableData)
    ensures
        final(fs).deep_view() == insert_field(old(fs).deep_view(), name@, data@),
{
    let ghost fsv = fs.deep_view();
    let mut i: usize = 0;
    while i < fs.len()
        invariant
            i <= fs.len(),
            fsv == fs.deep_view(),
            fsv == old(fs).deep_view(),
            fsv.len() == fs.len(),
            lower_bound(field_keys(fsv), name@) == lower_bound_from(field_keys(fsv), name@, i as int),
        decreases fs.len() - i,
    {
        proof {
            assert(field_keys(fsv)[i as int] == fsv[i as int].name);
        }
        if !str_lex_lt(fs[i].name.as_str(), name.as_str()) {
            proof {
                assert(lower_bound(field_keys(fsv), name@) == i as int);
            }
            if str_eq(fs[i].name.as_str(), name.as_str()) {
                let _ = fs.remove(i);
                fs.insert(i, FieldEntry { name, data });
                proof {
                    assert(fs.deep_view() =~= fsv.update(
                        i as int,
                        FieldEntryV { name: name@, data: data@ },
                    ));
                }
            } else {
                fs.insert(i, FieldEntry { name, data });
                proof {
                    assert(fs.deep_view() =~= fsv.insert(
                        i as int,
                        FieldEntryV { name: name@, data: data@ },
                    ));
                }
            }
            return;
        }
        i += 1;
    }
    proof {
        assert(lower_bound(field_keys(fsv), name@) == fsv.len());
    }
    fs.push(FieldEntry { name, data });
    proof {
        assert(fs.deep_view() =~= fsv.insert(
            fsv.len() as int,
            FieldEntryV { name: name@, data: data@ },
        ));
    }
}

/// Folds a device's named records into a field map.
fn add_device_fields(fs: &mut Vec<FieldEntry>, records: &Vec<ControlTableData>)
    ensures
        final(fs).deep_view() == fields_into(old(fs).deep_view(), records.deep_view()),
{
    let ghost rv = records.deep_view();
    let mut i: usize = 0;
    while i < records.len()
        invariant
            i <= records.len(),
            rv == records.deep_view(),
            rv.len() == records.len(),
            fs.deep_view() == fields_into(old(fs).deep_view(), rv.take(i as int)),
        decreases records.len() - i,
    {
        proof {
            assert(rv.take(i as int + 1).drop_last() =~= rv.take(i as int));
            assert(rv.take(i as int + 1).last() == rv[i as int]);
        }
        let rec = &records[i];
        proof {
            assert(rec@ == rv[i as int]);
        }
        match &rec.data_name {
            Some(n) => {
                insert_field_entry(fs, n.clone(), rec.duplicate());
            },
            None => {},
        }
        i += 1;
    }
    proof {
        assert(rv.take(records.len() as int) =~= rv);
    }
}

/// Inserts a device's records under its model key.
fn upd_model_entries(ms: &mut Vec<ModelEntry>, model: String, records: &Vec<ControlTableData>)
    ensures
        final(ms).deep_view() == upd_models(old(ms).deep_view(), model@, records.deep_view()),
{
    let ghost msv = ms.deep_view();
    let mut i: usize = 0;
    while i < ms.len()
        invariant
            i <= ms.len(),
            msv == ms.deep_view(),
            msv == old(ms).deep_view(),
            msv.len() == ms.len(),
            lower_bound(model_keys(msv), model@) == lower_bound_from(
                model_keys(msv),
                model@,
                i as int,
            ),
        decreases ms.len() - i,
    {
        proof {
            assert(model_keys(msv)[i as int] == msv[i as int].model);
        }
        if !str_lex_lt(ms[i].model.as_str(), model.as_str()) {
            proof {
                assert(lower_bound(model_keys(msv), model@) == i as int);
            }
            if str_eq(ms[i].model.as_str(), model.as_str()) {
                let mut entry = ms.remove(i);
                proof {
                    assert(entry@ == msv[i as int]);
                }
                add_device_fields(&mut entry.fields, records);
                let entry2 = ModelEntry { model, fields: entry.fields };
                ms.insert(i, entry2);
                proof {
                    assert(ms.deep_view() =~= msv.update(
                        i as int,
                        ModelEntryV {
                            model: model@,
                            fields: fields_into(msv[i as int].fields, records.deep_view()),
                        },
                    ));
                }
            } else {
                let mut fields: Vec<FieldEntry> = Vec::new();
                proof {
                    assert(fields.deep_view() =~= Seq::<FieldEntryV>::empty());
                }
                add_device_fields(&mut fields, records);
                ms.insert(i, ModelEntry { model, fields });
                proof {
                    assert(ms.deep_view() =~= msv.insert(
                        i as int,
                        ModelEntryV {
                            model: model@,
                            fields: fields_into(Seq::empty(), records.deep_view()),
                        },
                    ));
                }
            }
            return;
        }
        i += 1;
    }
    proof {
        assert(lower_bound(model_keys(msv), model@) == msv.len());
    }
    let mut fields: Vec<FieldEntry> = Vec::new();
    proof {
        assert(fields.deep_view() =~= Seq::<FieldEntryV>::empty());
    }
    add_device_fields(&mut fields, records);
    ms.push(ModelEntry { model, fields });
    proof {
        assert(ms.deep_view() =~= msv.insert(
            msv.len() as int,
            ModelEntryV {
                model: model@,
                fields: fields_into(Seq::empty(), records.deep_view()),
            },
        ));
    }
}

/// Inserts a device under its series key.
fn upd_series_entries(
    ss: &mut Vec<SeriesEntry>,
    series: String,
    model: String,
    records: &Vec<ControlTableData>,
)
    ensures
        final(ss).deep_view() == upd_series(
            old(ss).deep_view(),
            series@,
            model@,
            records.deep_view(),
        ),
{
    let ghost ssv = ss.deep_view();
    let mut i: usize = 0;
    while i < ss.len()
        invariant
            i <= ss.len(),
            ssv == ss.deep_view(),
            ssv == old(ss).deep_view(),
            ssv.len() == ss.len(),
            lower_bound(series_keys(ssv), series@) == lower_bound_from(
                series_keys(ssv),
                series@,
                i as int,
            ),
        decreases ss.len() - i,
    {
        proof {
            assert(series_keys(ssv)[i as int] == ssv[i as int].series);
        }
        if !str_lex_lt(ss[i].series.as_str(), series.as_str()) {
            proof {
                assert(lower_bound(series_keys(ssv), series@) == i as int);
            }
            if str_eq(ss[i].series.as_str(), series.as_str()) {
                let mut entry = ss.remove(i);
                proof {
                    assert(entry@ == ssv[i as int]);
                }
                upd_model_entries(&mut entry.models, model, records);
                let entry2 = SeriesEntry { series, models: entry.models };
                ss.insert(i, entry2);
                proof {
                    assert(ss.deep_view() =~= ssv.update(
                        i as int,
                        SeriesEntryV {
                            series: series@,
                            models: upd_models(
                                ssv[i as int].models,
                                model@,
                                records.deep_view(),
                            ),
                        },
                    ));
                }
            } else {
                let mut models: Vec<ModelEntry> = Vec::new();
                proof {
                    assert(models.deep_view() =~= Seq::<ModelEntryV>::empty());
                }
                upd_model_entries(&mut models, model, records);
                ss.insert(i, SeriesEntry { series, models });
                proof {
                    assert(ss.deep_view() =~= ssv.insert(
                        i as int,
                        SeriesEntryV {
                            series: series@,
                            models: upd_models(Seq::empty(), model@, records.deep_view()),
                        },
                    ));
                }
            }
            return;
        }
        i += 1;
    }
    proof {
        assert(lower_bound(series_keys(ssv), series@) == ssv.len());
    }
    let mut models: Vec<ModelEntry> = Vec::new();
    proof {
        assert(models.deep_view() =~= Seq::<ModelEntryV>::empty());
    }
    upd_model_entries(&mut models, model, records);
    ss.push(SeriesEntry { series, models });
    proof {
        assert(ss.deep_view() =~= ssv.insert(
            ssv.len() as int,
            SeriesEntryV {
                series: series@,
                models: upd_models(Seq::empty(), model@, records.deep_view()),
            },
        ));
    }
}

/// The model key of a raw device name, if it holds a letter.
fn model_key_of(raw_name: &str) -> (r: Option<String>)
    ensures
        match r {
            Some(m) => first_alpha_from(raw_name@, 0) >= 0 && m@ == model_of(raw_name@),
            None => first_alpha_from(raw_name@, 0) < 0,
        },
{
    let cs = chars_of(raw_name);
    match find_first_alpha(&cs) {
        None => None,
        Some(p) => {
            let filtered = keep_alnum(&cs);
            let k = if p <= filtered.len() {
                p
            } else {
                filtered.len()
            };
            let tail = sub_chars(&filtered, k, filtered.len());
            proof {
                assert(tail@ == filtered@.skip(k as int));
            }
            let upped = upper_chars(&tail);
            Some(string_from_chars(&upped))
        },
    }
}

/// Aggregates the devices into the three-level key-ordered structure.
pub fn aggregate(servos: &Vec<Actuator>) -> (r: Result<Vec<SeriesEntry>, GenError>)
    ensures
        match r {
            Ok(ss) => aggregate_spec(servos.deep_view()) == Ok::<Seq<SeriesEntryV>, GenErrorV>(
                ss.deep_view(),
            ),
            Err(e) => aggregate_spec(servos.deep_view()) == Err::<Seq<SeriesEntryV>, GenErrorV>(
                e@,
            ),
        },
{
    let ghost dv = servos.deep_view();
    let mut ss: Vec<SeriesEntry> = Vec::new();
    proof {
        assert(dv.take(0) =~= Seq::<ActuatorV>::empty());
        assert(ss.deep_view() =~= Seq::<SeriesEntryV>::empty());
    }
    let mut i: usize = 0;
    while i < servos.len()
        invariant
            i <= servos.len(),
            dv == servos.deep_view(),
            dv.len() == servos.len(),
            aggregate_spec(dv.take(i as int)) == Ok::<Seq<SeriesEntryV>, GenErrorV>(
                ss.deep_view(),
            ),
        decreases servos.len() - i,
    {
        proof {
            assert(dv.take(i as int + 1).drop_last() =~= dv.take(i as int));
            assert(dv.take(i as int + 1).last() == dv[i as int]);
        }
        let d = &servos[i];
        proof {
            assert(d.deep_view() == dv[i as int]);
        }
        let model = match model_key_of(d.raw_name.as_str()) {
            None => {
                proof {
                    lemma_aggregate_prefix_err(dv, i as int + 1);
                }
                return Err(GenError::NoAlphabeticModelName { raw_name: d.raw_name.clone() });
            },
            Some(m) => m,
        };
        let series_cs = chars_of(d.series.as_str());
        let series_up = upper_chars(&series_cs);
        let series = string_from_chars(&series_up);
        upd_series_entries(&mut ss, series, model, &d.data);
        i += 1;
    }
    proof {
        assert(dv.take(servos.len() as int) =~= dv);
    }
    Ok(ss)
}

/// The distinct field names across all devices, sorted.
pub fn collect_names(servos: &Vec<Actuator>) -> (r: Vec<String>)
    ensures
        r.deep_view() == all_names(servos.deep_view()),
{
    let ghost dv = servos.deep_view();
    let mut ns: Vec<String> = Vec::new();
    proof {
        assert(dv.take(0) =~= Seq::<ActuatorV>::empty());
        assert(ns.deep_view() =~= Seq::<Seq<char>>::empty());
    }
    let mut i: usize = 0;
    while i < servos.len()
        invariant
            i <= servos.len(),
            dv == servos.deep_view(),
            dv.len() == servos.len(),
            ns.deep_view() == all_names(dv.take(i as int)),
        decreases servos.len() - i,
    {
        proof {
            assert(dv.take(i as int + 1).drop_last() =~= dv.take(i as int));
            assert(dv.take(i as int + 1).last() == dv[i as int]);
        }
        let d = &servos[i];
        proof {
            assert(d.deep_view() == dv[i as int]);
        }
        let ghost rv = d.data.deep_view();
        let mut j: usize = 0;
        proof {
            assert(rv.take(0) =~= Seq::<ControlTableDataV>::empty());
        }
        while j < d.data.len()
            invariant
                j <= d.data.len(),
                rv == d.data.deep_view(),
                rv.len() == d.data.len(),
                ns.deep_view() == names_into(all_names(dv.take(i as int)), rv.take(j as int)),
            decreases d.data.len() - j,
        {
            proof {
                assert(rv.take(j as int + 1).drop_last() =~= rv.take(j as int));
                assert(rv.take(j as int + 1).last() == rv[j as int]);
            }
            let rec = &d.data[j];
            proof {
                assert(rec@ == rv[j as int]);
            }
            match &rec.data_name {
                Some(n) => {
                    insert_name_entry(&mut ns, n.clone());
                },
                None => {},
            }
            j += 1;
        }
        proof {
            assert(rv.take(d.data.len() as int) =~= rv);
        }
        i += 1;
    }
    proof {
        assert(dv.take(servos.len() as int) =~= dv);
    }
    ns
}

/// Inserts a name into a sorted name set.
fn insert_name_entry(ns: &mut Vec<String>, n: String)
    ensures
        final(ns).deep_view() == insert_name(old(ns).deep_view(), n@),
{
    let ghost nsv = ns.deep_view();
    let mut i: usize = 0;
    while i < ns.len()
        invariant
            i <= ns.len(),
            nsv == ns.deep_view(),
            nsv == old(ns).deep_view(),
            nsv.len() == ns.len(),
            lower_bound(nsv, n@) == lower_bound_from(nsv, n@, i as int),
        decreases ns.len() - i,
    {
        if !str_lex_lt(ns[i].as_str(), n.as_str()) {
            proof {
                assert(lower_bound(nsv, n@) == i as int);
            }
            if str_eq(ns[i].as_str(), n.as_str()) {
                proof {
                    assert(ns.deep_view() =~= insert_name(nsv, n@));
                }
            } else {
                ns.insert(i, n);
                proof {
                    assert(ns.deep_view() =~= nsv.insert(i as int, n@));
                }
            }
            return;
        }
        i += 1;
    }
    proof {
        assert(lower_bound(nsv, n@) == nsv.len());
    }
    ns.push(n);
    proof {
        assert(ns.deep_view() =~= nsv.insert(nsv.len() as int, n@));
    }
}

/// The keys are strictly increasing in lexicographic order.
pub open spec fn keys_sorted(ks: Seq<Seq<char>>) -> bool {
    forall|i: int| 0 <= i < ks.len() - 1 ==> lex_lt(#[trigger] ks[i], ks[i + 1])
}

/// A model entry's fields are in strictly increasing key order.
pub open spec fn model_wf(m: ModelEntryV) -> bool {
    keys_sorted(field_keys(m.fields))
}

/// A series entry's models are in strictly increasing key order, each
/// well-formed.
pub open spec fn series_wf(s: SeriesEntryV) -> bool {
    keys_sorted(model_keys(s.models)) && forall|i: int|
        0 <= i < s.models.len() ==> model_wf(#[trigger] s.models[i])
}

/// The aggregate's series are in strictly increasing key order, each
/// well-formed.
pub open spec fn aggregate_wf(ss: Seq<SeriesEntryV>) -> bool {
    keys_sorted(series_keys(ss)) && forall|i: int|
        0 <= i < ss.len() ==> series_wf(#[trigger] ss[i])
}

/// What the lower bound finds: every key before it is below the probe,
/// and the key at it, if any, is not.
proof fn lemma_lower_bound_props(ks: Seq<Seq<char>>, key: Seq<char>, i: int)
    requires
        0 <= i <= ks.len(),
    ensures
        i <= lower_bound_from(ks, key, i) <= ks.len(),
        forall|j: int| i <= j < lower_bound_from(ks, key, i) ==> lex_lt(#[trigger] ks[j], key),
        lower_bound_from(ks, key, i) < ks.len() ==> !lex_lt(
            ks[lower_bound_from(ks, key, i)],
            key,
        ),
    decreases ks.len() - i,
{
    if i < ks.len() && lex_lt(ks[i], key) {
        lemma_lower_bound_props(ks, key, i + 1);
    }
}

/// Inserting a fresh key at its lower bound keeps the keys strictly
/// sorted.
proof fn lemma_keys_insert_sorted(ks: Seq<Seq<char>>, key: Seq<char>)
    requires
        keys_sorted(ks),
        !(lower_bound(ks, key) < ks.len() && ks[lower_bound(ks, key)] == key),
    ensures
        keys_sorted(ks.insert(lower_bound(ks, key), key)),
{
    let p = lower_bound(ks, key);
    lemma_lower_bound_props(ks, key, 0);
    if p < ks.len() {
        crate::text::lemma_lex_lt_trichotomy(key, ks[p]);
    }
    ks.insert_ensures(p, key);
    let ks2 = ks.insert(p, key);
    assert forall|i: int| 0 <= i < ks2.len() - 1 implies lex_lt(#[trigger] ks2[i], ks2[i + 1]) by {
        if i + 1 < p {
            assert(ks2[i] == ks[i] && ks2[i + 1] == ks[i + 1]);
        } else if i + 1 == p {
            assert(ks2[i] == ks[i] && ks2[i + 1] == key);
            assert(lex_lt(ks[i], key));
        } else if i == p {
            assert(ks2[i] == key && ks2[i + 1] == ks[i]);
            assert(lex_lt(key, ks[i]));
        } else {
            assert(ks2[i] == ks[i - 1] && ks2[i + 1] == ks[i]);
        }
    }
}

/// Inserting a field keeps the field keys strictly sorted.
proof fn lemma_insert_field_sorted(fs: Seq<FieldEntryV>, name: Seq<char>, data: ControlTableDataV)
    requires
        keys_sorted(field_keys(fs)),
    ensures
        keys_sorted(field_keys(insert_field(fs, name, data))),
{
    let ks = field_keys(fs);
    let p = lower_bound(ks, name);
    lemma_lower_bound_props(ks, name, 0);
    let e = FieldEntryV { name, data };
    if p < fs.len() && fs[p].name == name {
        assert(field_keys(fs.update(p, e)) =~= ks);
    } else {
        lemma_keys_insert_sorted(ks, name);
        assert(field_keys(fs.insert(p, e)) =~= ks.insert(p, name)) by {
            fs.insert_ensures(p, e);
            ks.insert_ensures(p, name);
        }
    }
}

/// Folding records into a field map keeps the field keys strictly
/// sorted.
proof fn lemma_fields_into_sorted(fs: Seq<FieldEntryV>, records: Seq<ControlTableDataV>)
    requires
        keys_sorted(field_keys(fs)),
    ensures
        keys_sorted(field_keys(fields_into(fs, records))),
    decreases records.len(),
{
    if records.len() > 0 {
        lemma_fields_into_sorted(fs, records.drop_last());
        match records.last().data_name {
            Some(n) => {
                lemma_insert_field_sorted(fields_into(fs, records.drop_last()), n, records.last());
            },
            None => {},
        }
    }
}

/// Updating a series' models keeps the series well-formed.
proof fn lemma_upd_models_wf(ms: Seq<ModelEntryV>, model: Seq<char>, records: Seq<
    ControlTableDataV,
>)
    requires
        keys_sorted(model_keys(ms)),
        forall|i: int| 0 <= i < ms.len() ==> model_wf(#[trigger] ms[i]),
    ensures
        keys_sorted(model_keys(upd_models(ms, model, records))),
        forall|i: int|
            0 <= i < upd_models(ms, model, records).len() ==> model_wf(
                #[trigger] upd_models(ms, model, records)[i],
            ),
{
    let ks = model_keys(ms);
    let p = lower_bound(ks, model);
    lemma_lower_bound_props(ks, model, 0);
    if p < ms.len() && ms[p].model == model {
        lemma_fields_into_sorted(ms[p].fields, records);
        let e = ModelEntryV { model, fields: fields_into(ms[p].fields, records) };
        let ms2 = ms.update(p, e);
        assert(model_keys(ms2) =~= ks);
        assert forall|i: int| 0 <= i < ms2.len() implies model_wf(#[trigger] ms2[i]) by {
            if i != p {
                assert(ms2[i] == ms[i]);
            }
        }
    } else {
        assert(keys_sorted(Seq::<Seq<char>>::empty().insert(0, model))) by {
            assert(field_keys(Seq::<FieldEntryV>::empty()) =~= Seq::<Seq<char>>::empty());
        }
        assert(keys_sorted(field_keys(Seq::<FieldEntryV>::empty()))) by {
            assert(field_keys(Seq::<FieldEntryV>::empty()) =~= Seq::<Seq<char>>::empty());
        }
        lemma_fields_into_sorted(Seq::empty(), records);
        let e = ModelEntryV { model, fields: fields_into(Seq::empty(), records) };
        let ms2 = ms.insert(p, e);
        lemma_keys_insert_sorted(ks, model);
        assert(model_keys(ms2) =~= ks.insert(p, model)) by {
            ms.insert_ensures(p, e);
            ks.insert_ensures(p, model);
        }
        ms.insert_ensures(p, e);
        assert forall|i: int| 0 <= i < ms2.len() implies model_wf(#[trigger] ms2[i]) by {
            if i < p {
                assert(ms2[i] == ms[i]);
            } else if i == p {
                assert(ms2[i] == e);
            } else {
                assert(ms2[i] == ms[i - 1]);
            }
        }
    }
}

/// Updating the aggregate keeps it well-formed.
proof fn lemma_upd_series_wf(
    ss: Seq<SeriesEntryV>,
    series: Seq<char>,
    model: Seq<char>,
    records: Seq<ControlTableDataV>,
)
    requires
        aggregate_wf(ss),
    ensures
        aggregate_wf(upd_series(ss, series, model, records)),
{
    let ks = series_keys(ss);
    let p = lower_bound(ks, series);
    lemma_lower_bound_props(ks, series, 0);
    if p < ss.len() && ss[p].series == series {
        lemma_upd_models_wf(ss[p].models, model, records);
        let e = SeriesEntryV { series, models: upd_models(ss[p].models, model, records) };
        let ss2 = ss.update(p, e);
        assert(series_keys(ss2) =~= ks);
        assert forall|i: int| 0 <= i < ss2.len() implies series_wf(#[trigger] ss2[i]) by {
            if i != p {
                assert(ss2[i] == ss[i]);
            }
        }
    } else {
        assert(keys_sorted(model_keys(Seq::<ModelEntryV>::empty()))) by {
            assert(model_keys(Seq::<ModelEntryV>::empty()) =~= Seq::<Seq<char>>::empty());
        }
        lemma_upd_models_wf(Seq::empty(), model, records);
        let e = SeriesEntryV { series, models: upd_models(Seq::empty(), model, records) };
        let ss2 = ss.insert(p, e);
        lemma_keys_insert_sorted(ks, series);
        assert(series_keys(ss2) =~= ks.insert(p, series)) by {
            ss.insert_ensures(p, e);
            ks.insert_ensures(p, series);
        }
        ss.insert_ensures(p, e);
        assert forall|i: int| 0 <= i < ss2.len() implies series_wf(#[trigger] ss2[i]) by {
            if i < p {
                assert(ss2[i] == ss[i]);
            } else if i == p {
                assert(ss2[i] == e);
            } else {
                assert(ss2[i] == ss[i - 1]);
            }
        }
    }
}

/// Determinism of the aggregate's shape: whenever aggregation succeeds,
/// every level of the result — series, models within a series, fields
/// within a model — is in strictly increasing lexicographic key order,
/// so the generated text admits exactly one layout for a given key set.
pub proof fn lemma_aggregate_sorted(devs: Seq<ActuatorV>)
    ensures
        aggregate_spec(devs) matches Ok(ss) ==> aggregate_wf(ss),
    decreases devs.len(),
{
    if devs.len() == 0 {
        assert(series_keys(Seq::<SeriesEntryV>::empty()) =~= Seq::<Seq<char>>::empty());
    } else {
        lemma_aggregate_sorted(devs.drop_last());
        if aggregate_spec(devs) is Ok {
            let ss = aggregate_spec(devs.drop_last())->Ok_0;
            let d = devs.last();
            lemma_upd_series_wf(ss, series_of(d.series), model_of(d.raw_name), d.data);
        }
    }
}

/// The entry with key `k`, if any.
pub open spec fn find_model(ms: Seq<ModelEntryV>, k: Seq<char>) -> Option<ModelEntryV>
    decreases ms.len(),
{
    if ms.len() == 0 {
        None
    } else if ms[0].model == k {
        Some(ms[0])
    } else {
        find_model(ms.skip(1), k)
    }
}

/// The entry with key `k`, if any.
pub open spec fn find_series(ss: Seq<SeriesEntryV>, k: Seq<char>) -> Option<SeriesEntryV>
    decreases ss.len(),
{
    if ss.len() == 0 {
        None
    } else if ss[0].series == k {
        Some(ss[0])
    } else {
        find_series(ss.skip(1), k)
    }
}

/// Strict sortedness orders any two positions, not only neighbours.
proof fn lemma_keys_sorted_all(ks: Seq<Seq<char>>, i: int, j: int)
    requires
        keys_sorted(ks),
        0 <= i < j < ks.len(),
    ensures
        lex_lt(ks[i], ks[j]),
    decreases j - i,
{
    if j > i + 1 {
        lemma_keys_sorted_all(ks, i, j - 1);
        crate::text::lemma_lex_lt_trans(ks[i], ks[j - 1], ks[j]);
    }
}

/// The tail of a sorted key list is sorted.
proof fn lemma_model_keys_skip(ms: Seq<ModelEntryV>)
    requires
        ms.len() > 0,
    ensures
        model_keys(ms.skip(1)) =~= model_keys(ms).skip(1),
{
}

proof fn lemma_series_keys_skip(ss: Seq<SeriesEntryV>)
    requires
        ss.len() > 0,
    ensures
        series_keys(ss.skip(1)) =~= series_keys(ss).skip(1),
{
}

/// Sortedness of a key list survives dropping the head.
proof fn lemma_keys_sorted_skip(ks: Seq<Seq<char>>)
    requires
        keys_sorted(ks),
        ks.len() > 0,
    ensures
        keys_sorted(ks.skip(1)),
{
    assert forall|i: int| 0 <= i < ks.skip(1).len() - 1 implies lex_lt(
        #[trigger] ks.skip(1)[i],
        ks.skip(1)[i + 1],
    ) by {
        assert(ks.skip(1)[i] == ks[i + 1]);
        assert(ks.skip(1)[i + 1] == ks[i + 2]);
    }
}

/// Every entry of a sorted list is found under its own key.
proof fn lemma_find_model_present(ms: Seq<ModelEntryV>, i: int)
    requires
        keys_sorted(model_keys(ms)),
        0 <= i < ms.len(),
    ensures
        find_model(ms, ms[i].model) == Some(ms[i]),
    decreases i,
{
    if i > 0 {
        lemma_keys_sorted_all(model_keys(ms), 0, i);
        crate::text::lemma_lex_lt_trichotomy(ms[0].model, ms[i].model);
        lemma_model_keys_skip(ms);
        lemma_keys_sorted_skip(model_keys(ms));
        lemma_find_model_present(ms.skip(1), i - 1);
    }
}

proof fn lemma_find_series_present(ss: Seq<SeriesEntryV>, i: int)
    requires
        keys_sorted(series_keys(ss)),
        0 <= i < ss.len(),
    ensures
        find_series(ss, ss[i].series) == Some(ss[i]),
    decreases i,
{
    if i > 0 {
        lemma_keys_sorted_all(series_keys(ss), 0, i);
        crate::text::lemma_lex_lt_trichotomy(ss[0].series, ss[i].series);
        lemma_series_keys_skip(ss);
        lemma_keys_sorted_skip(series_keys(ss));
        lemma_find_series_present(ss.skip(1), i - 1);
    }
}

/// A key absent from every entry is not found.
proof fn lemma_find_model_none(ms: Seq<ModelEntryV>, k: Seq<char>)
    requires
        forall|i: int| 0 <= i < ms.len() ==> (#[trigger] ms[i]).model != k,
    ensures
        find_model(ms, k) is None,
    decreases ms.len(),
{
    if ms.len() > 0 {
        assert(forall|i: int|
            0 <= i < ms.skip(1).len() ==> #[trigger] ms.skip(1)[i] == ms[i + 1]);
        lemma_find_model_none(ms.skip(1), k);
    }
}

proof fn lemma_find_series_none(ss: Seq<SeriesEntryV>, k: Seq<char>)
    requires
        forall|i: int| 0 <= i < ss.len() ==> (#[trigger] ss[i]).series != k,
    ensures
        find_series(ss, k) is None,
    decreases ss.len(),
{
    if ss.len() > 0 {
        assert(forall|i: int|
            0 <= i < ss.skip(1).len() ==> #[trigger] ss.skip(1)[i] == ss[i + 1]);
        lemma_find_series_none(ss.skip(1), k);
    }
}

/// A found key that is not the head's comes after it in the order.
proof fn lemma_find_model_key_order(ms: Seq<ModelEntryV>, k: Seq<char>)
    requires
        keys_sorted(model_keys(ms)),
        ms.len() > 0,
        find_model(ms, k) is Some,
        k != ms[0].model,
    ensures
        lex_lt(ms[0].model, k),
    decreases ms.len(),
{
    let tail = ms.skip(1);
    assert(find_model(tail, k) is Some);
    assert(tail.len() > 0) by {
        if tail.len() == 0 {
            assert(find_model(tail, k) is None);
        }
    }
    assert(model_keys(ms)[0] == ms[0].model);
    assert(model_keys(ms)[1] == ms[1].model);
    assert(lex_lt(ms[0].model, ms[1].model));
    if k == tail[0].model {
        assert(tail[0] == ms[1]);
    } else {
        lemma_model_keys_skip(ms);
        lemma_keys_sorted_skip(model_keys(ms));
        lemma_find_model_key_order(tail, k);
        crate::text::lemma_lex_lt_trans(ms[0].model, ms[1].model, k);
    }
}

proof fn lemma_find_series_key_order(ss: Seq<SeriesEntryV>, k: Seq<char>)
    requires
        keys_sorted(series_keys(ss)),
        ss.len() > 0,
        find_series(ss, k) is Some,
        k != ss[0].series,
    ensures
        lex_lt(ss[0].series, k),
    decreases ss.len(),
{
    let tail = ss.skip(1);
    assert(find_series(tail, k) is Some);
    assert(tail.len() > 0) by {
        if tail.len() == 0 {
            assert(find_series(tail, k) is None);
        }
    }
    assert(series_keys(ss)[0] == ss[0].series);
    assert(series_keys(ss)[1] == ss[1].series);
    assert(lex_lt(ss[0].series, ss[1].series));
    if k == tail[0].series {
        assert(tail[0] == ss[1]);
    } else {
        lemma_series_keys_skip(ss);
        lemma_keys_sorted_skip(series_keys(ss));
        lemma_find_series_key_order(tail, k);
        crate::text::lemma_lex_lt_trans(ss[0].series, ss[1].series, k);
    }
}

/// Two sorted model maps that find the same entry under every key are
/// the same sequence.
proof fn lemma_models_canon(a: Seq<ModelEntryV>, b: Seq<ModelEntryV>)
    requires
        keys_sorted(model_keys(a)),
        keys_sorted(model_keys(b)),
        forall|k: Seq<char>| #[trigger] find_model(a, k) == find_model(b, k),
    ensures
        a == b,
    decreases a.len() + b.len(),
{
    if a.len() == 0 && b.len() == 0 {
        assert(a =~= b);
    } else if a.len() == 0 {
        lemma_find_model_present(b, 0);
        assert(find_model(a, b[0].model) == find_model(b, b[0].model));
        assert(false);
    } else if b.len() == 0 {
        lemma_find_model_present(a, 0);
        assert(find_model(a, a[0].model) == find_model(b, a[0].model));
        assert(false);
    } else {
        lemma_find_model_present(a, 0);
        lemma_find_model_present(b, 0);
        if a[0].model != b[0].model {
            assert(find_model(b, a[0].model) == Some(a[0]));
            lemma_find_model_key_order(b, a[0].model);
            assert(find_model(a, b[0].model) == Some(b[0]));
            lemma_find_model_key_order(a, b[0].model);
            crate::text::lemma_lex_lt_trichotomy(a[0].model, b[0].model);
            assert(false);
        }
        assert(a[0] == b[0]);
        lemma_model_keys_skip(a);
        lemma_model_keys_skip(b);
        lemma_keys_sorted_skip(model_keys(a));
        lemma_keys_sorted_skip(model_keys(b));
        assert forall|k: Seq<char>| #[trigger] find_model(a.skip(1), k) == find_model(
            b.skip(1),
            k,
        ) by {
            if k == a[0].model {
                assert forall|i: int|
                    0 <= i < a.skip(1).len() implies (#[trigger] a.skip(1)[i]).model != k by {
                    assert(a.skip(1)[i] == a[i + 1]);
                    lemma_keys_sorted_all(model_keys(a), 0, i + 1);
                    crate::text::lemma_lex_lt_trichotomy(a[0].model, a[i + 1].model);
                }
                lemma_find_model_none(a.skip(1), k);
                assert forall|i: int|
                    0 <= i < b.skip(1).len() implies (#[trigger] b.skip(1)[i]).model != k by {
                    assert(b.skip(1)[i] == b[i + 1]);
                    lemma_keys_sorted_all(model_keys(b), 0, i + 1);
                    crate::text::lemma_lex_lt_trichotomy(b[0].model, b[i + 1].model);
                }
                lemma_find_model_none(b.skip(1), k);
            } else {
                assert(find_model(a, k) == find_model(a.skip(1), k));
                assert(find_model(b, k) == find_model(b.skip(1), k));
            }
        }
        lemma_models_canon(a.skip(1), b.skip(1));
        assert(a =~= b) by {
            assert(forall|i: int| 1 <= i < a.len() ==> a[i] == a.skip(1)[i - 1]);
            assert(forall|i: int| 1 <= i < b.len() ==> b[i] == b.skip(1)[i - 1]);
        }
    }
}

/// Two sorted series maps that find the same entry under every key are
/// the same sequence.
proof fn lemma_series_canon(a: Seq<SeriesEntryV>, b: Seq<SeriesEntryV>)
    requires
        keys_sorted(series_keys(a)),
        keys_sorted(series_keys(b)),
        forall|k: Seq<char>| #[trigger] find_series(a, k) == find_series(b, k),
    ensures
        a == b,
    decreases a.len() + b.len(),
{
    if a.len() == 0 && b.len() == 0 {
        assert(a =~= b);
    } else if a.len() == 0 {
        lemma_find_series_present(b, 0);
        assert(find_series(a, b[0].series) == find_series(b, b[0].series));
        assert(false);
    } else if b.len() == 0 {
        lemma_find_series_present(a, 0);
        assert(find_series(a, a[0].series) == find_series(b, a[0].series));
        assert(false);
    } else {
        lemma_find_series_present(a, 0);
        lemma_find_series_present(b, 0);
        if a[0].series != b[0].series {
            assert(find_series(b, a[0].series) == Some(a[0]));
            lemma_find_series_key_order(b, a[0].series);
            assert(find_series(a, b[0].series) == Some(b[0]));
            lemma_find_series_key_order(a, b[0].series);
            crate::text::lemma_lex_lt_trichotomy(a[0].series, b[0].series);
            assert(false);
        }
        assert(a[0] == b[0]);
        lemma_series_keys_skip(a);
        lemma_series_keys_skip(b);
        lemma_keys_sorted_skip(series_keys(a));
        lemma_keys_sorted_skip(series_keys(b));
        assert forall|k: Seq<char>| #[trigger] find_series(a.skip(1), k) == find_series(
            b.skip(1),
            k,
        ) by {
            if k == a[0].series {
                assert forall|i: int|
                    0 <= i < a.skip(1).len() implies (#[trigger] a.skip(1)[i]).series != k by {
                    assert(a.skip(1)[i] == a[i + 1]);
                    lemma_keys_sorted_all(series_keys(a), 0, i + 1);
                    crate::text::lemma_lex_lt_trichotomy(a[0].series, a[i + 1].series);
                }
                lemma_find_series_none(a.skip(1), k);
                assert forall|i: int|
                    0 <= i < b.skip(1).len() implies (#[trigger] b.skip(1)[i]).series != k by {
                    assert(b.skip(1)[i] == b[i + 1]);
                    lemma_keys_sorted_all(series_keys(b), 0, i + 1);
                    crate::text::lemma_lex_lt_trichotomy(b[0].series, b[i + 1].series);
                }
                lemma_find_series_none(b.skip(1), k);
            } else {
                assert(find_series(a, k) == find_series(a.skip(1), k));
                assert(find_series(b, k) == find_series(b.skip(1), k));
            }
        }
        lemma_series_canon(a.skip(1), b.skip(1));
        assert(a =~= b) by {
            assert(forall|i: int| 1 <= i < a.len() ==> a[i] == a.skip(1)[i - 1]);
            assert(forall|i: int| 1 <= i < b.len() ==> b[i] == b.skip(1)[i - 1]);
        }
    }
}

/// Replacing an entry under its own key does not change what other keys
/// find.
proof fn lemma_find_model_update_other(ms: Seq<ModelEntryV>, p: int, e: ModelEntryV, k: Seq<char>)
    requires
        0 <= p < ms.len(),
        e.model == ms[p].model,
        k != ms[p].model,
    ensures
        find_model(ms.update(p, e), k) == find_model(ms, k),
    decreases ms.len(),
{
    let ms2 = ms.update(p, e);
    if p == 0 {
        assert(ms2[0] == e);
        assert(ms2.skip(1) =~= ms.skip(1));
    } else {
        assert(ms2[0] == ms[0]);
        if ms[0].model != k {
            assert(ms2.skip(1) =~= ms.skip(1).update(p - 1, e));
            lemma_find_model_update_other(ms.skip(1), p - 1, e, k);
        }
    }
}

proof fn lemma_find_series_update_other(
    ss: Seq<SeriesEntryV>,
    p: int,
    e: SeriesEntryV,
    k: Seq<char>,
)
    requires
        0 <= p < ss.len(),
        e.series == ss[p].series,
        k != ss[p].series,
    ensures
        find_series(ss.update(p, e), k) == find_series(ss, k),
    decreases ss.len(),
{
    let ss2 = ss.update(p, e);
    if p == 0 {
        assert(ss2[0] == e);
        assert(ss2.skip(1) =~= ss.skip(1));
    } else {
        assert(ss2[0] == ss[0]);
        if ss[0].series != k {
            assert(ss2.skip(1) =~= ss.skip(1).update(p - 1, e));
            lemma_find_series_update_other(ss.skip(1), p - 1, e, k);
        }
    }
}

/// Inserting an entry does not change what other keys find.
proof fn lemma_find_model_insert_other(ms: Seq<ModelEntryV>, p: int, e: ModelEntryV, k: Seq<char>)
    requires
        0 <= p <= ms.len(),
        k != e.model,
    ensures
        find_model(ms.insert(p, e), k) == find_model(ms, k),
    decreases ms.len(),
{
    let ms2 = ms.insert(p, e);
    ms.insert_ensures(p, e);
    if p == 0 {
        assert(ms2[0] == e);
        assert(ms2.skip(1) =~= ms);
    } else {
        assert(ms2[0] == ms[0]);
        if ms[0].model != k {
            assert(ms2.skip(1) =~= ms.skip(1).insert(p - 1, e));
            lemma_find_model_insert_other(ms.skip(1), p - 1, e, k);
        }
    }
}

proof fn lemma_find_series_insert_other(
    ss: Seq<SeriesEntryV>,
    p: int,
    e: SeriesEntryV,
    k: Seq<char>,
)
    requires
        0 <= p <= ss.len(),
        k != e.series,
    ensures
        find_series(ss.insert(p, e), k) == find_series(ss, k),
    decreases ss.len(),
{
    let ss2 = ss.insert(p, e);
    ss.insert_ensures(p, e);
    if p == 0 {
        assert(ss2[0] == e);
        assert(ss2.skip(1) =~= ss);
    } else {
        assert(ss2[0] == ss[0]);
        if ss[0].series != k {
            assert(ss2.skip(1) =~= ss.skip(1).insert(p - 1, e));
            lemma_find_series_insert_other(ss.skip(1), p - 1, e, k);
        }
    }
}

/// A key whose lower-bound position does not carry it occurs nowhere in
/// a sorted key list.
proof fn lemma_lower_bound_miss(ks: Seq<Seq<char>>, key: Seq<char>)
    requires
        keys_sorted(ks),
        !(lower_bound(ks, key) < ks.len() && ks[lower_bound(ks, key)] == key),
    ensures
        forall|i: int| 0 <= i < ks.len() ==> ks[i] != key,
{
    let p = lower_bound(ks, key);
    lemma_lower_bound_props(ks, key, 0);
    assert forall|i: int| 0 <= i < ks.len() implies ks[i] != key by {
        if i < p {
            crate::text::lemma_lex_lt_trichotomy(ks[i], key);
        } else {
            crate::text::lemma_lex_lt_trichotomy(ks[p], key);
            assert(lex_lt(key, ks[p]));
            if i > p {
                lemma_keys_sorted_all(ks, p, i);
                crate::text::lemma_lex_lt_trans(key, ks[p], ks[i]);
            }
            crate::text::lemma_lex_lt_trichotomy(key, ks[i]);
        }
    }
}

/// The base a model upsert builds on: the fields already under the key,
/// or none.
pub open spec fn model_fields_base(ms: Seq<ModelEntryV>, m: Seq<char>) -> Seq<FieldEntryV> {
    match find_model(ms, m) {
        Some(e) => e.fields,
        None => Seq::empty(),
    }
}

/// What a model upsert leaves under every key: the transformed entry
/// under its own key, everything else untouched.
proof fn lemma_upd_models_find(
    ms: Seq<ModelEntryV>,
    m: Seq<char>,
    records: Seq<ControlTableDataV>,
    k: Seq<char>,
)
    requires
        keys_sorted(model_keys(ms)),
    ensures
        find_model(upd_models(ms, m, records), k) == if k == m {
            Some(
                ModelEntryV { model: m, fields: fields_into(model_fields_base(ms, m), records) },
            )
        } else {
            find_model(ms, k)
        },
{
    let ks = model_keys(ms);
    let p = lower_bound(ks, m);
    lemma_lower_bound_props(ks, m, 0);
    if p < ms.len() && ms[p].model == m {
        let e = ModelEntryV { model: m, fields: fields_into(ms[p].fields, records) };
        lemma_find_model_present(ms, p);
        assert(model_fields_base(ms, m) == ms[p].fields);
        if k == m {
            let ms2 = ms.update(p, e);
            assert(model_keys(ms2) =~= ks);
            lemma_find_model_present(ms2, p);
        } else {
            lemma_find_model_update_other(ms, p, e, k);
        }
    } else {
        let e = ModelEntryV { model: m, fields: fields_into(Seq::empty(), records) };
        lemma_lower_bound_miss(ks, m);
        assert forall|i: int| 0 <= i < ms.len() implies (#[trigger] ms[i]).model != m by {
            assert(ks[i] == ms[i].model);
        }
        lemma_find_model_none(ms, m);
        assert(model_fields_base(ms, m) =~= Seq::<FieldEntryV>::empty());
        if k == m {
            let ms2 = ms.insert(p, e);
            lemma_keys_insert_sorted(ks, m);
            assert(model_keys(ms2) =~= ks.insert(p, m)) by {
                ms.insert_ensures(p, e);
                ks.insert_ensures(p, m);
            }
            ms.insert_ensures(p, e);
            lemma_find_model_present(ms2, p);
        } else {
            lemma_find_model_insert_other(ms, p, e, k);
        }
    }
}

/// The base a series upsert builds on: the models already under the key,
/// or none.
pub open spec fn series_models_base(ss: Seq<SeriesEntryV>, s: Seq<char>) -> Seq<ModelEntryV> {
    match find_series(ss, s) {
        Some(e) => e.models,
        None => Seq::empty(),
    }
}

/// What a series upsert leaves under every key.
proof fn lemma_upd_series_find(
    ss: Seq<SeriesEntryV>,
    s: Seq<char>,
    m: Seq<char>,
    records: Seq<ControlTableDataV>,
    k: Seq<char>,
)
    requires
        keys_sorted(series_keys(ss)),
    ensures
        find_series(upd_series(ss, s, m, records), k) == if k == s {
            Some(
                SeriesEntryV {
                    series: s,
                    models: upd_models(series_models_base(ss, s), m, records),
                },
            )
        } else {
            find_series(ss, k)
        },
{
    let ks = series_keys(ss);
    let p = lower_bound(ks, s);
    lemma_lower_bound_props(ks, s, 0);
    if p < ss.len() && ss[p].series == s {
        let e = SeriesEntryV { series: s, models: upd_models(ss[p].models, m, records) };
        lemma_find_series_present(ss, p);
        assert(series_models_base(ss, s) == ss[p].models);
        if k == s {
            let ss2 = ss.update(p, e);
            assert(series_keys(ss2) =~= ks);
            lemma_find_series_present(ss2, p);
        } else {
            lemma_find_series_update_other(ss, p, e, k);
        }
    } else {
        let e = SeriesEntryV { series: s, models: upd_models(Seq::empty(), m, records) };
        lemma_lower_bound_miss(ks, s);
        assert forall|i: int| 0 <= i < ss.len() implies (#[trigger] ss[i]).series != s by {
            assert(ks[i] == ss[i].series);
        }
        lemma_find_series_none(ss, s);
        assert(series_models_base(ss, s) =~= Seq::<ModelEntryV>::empty());
        if k == s {
            let ss2 = ss.insert(p, e);
            lemma_keys_insert_sorted(ks, s);
            assert(series_keys(ss2) =~= ks.insert(p, s)) by {
                ss.insert_ensures(p, e);
                ks.insert_ensures(p, s);
            }
            ss.insert_ensures(p, e);
            lemma_find_series_present(ss2, p);
        } else {
            lemma_find_series_insert_other(ss, p, e, k);
        }
    }
}

/// A found entry is one of the sequence's entries.
proof fn lemma_find_series_mem(ss: Seq<SeriesEntryV>, k: Seq<char>)
    requires
        find_series(ss, k) is Some,
    ensures
        exists|i: int| 0 <= i < ss.len() && ss[i] == find_series(ss, k)->Some_0,
    decreases ss.len(),
{
    if ss.len() > 0 && ss[0].series != k {
        lemma_find_series_mem(ss.skip(1), k);
        let j = choose|j: int|
            0 <= j < ss.skip(1).len() && ss.skip(1)[j] == find_series(ss.skip(1), k)->Some_0;
        assert(ss[j + 1] == ss.skip(1)[j]);
    }
}

/// Upserting two different models commutes.
proof fn lemma_upd_models_comm(
    ms: Seq<ModelEntryV>,
    m1: Seq<char>,
    r1: Seq<ControlTableDataV>,
    m2: Seq<char>,
    r2: Seq<ControlTableDataV>,
)
    requires
        keys_sorted(model_keys(ms)),
        forall|i: int| 0 <= i < ms.len() ==> model_wf(#[trigger] ms[i]),
        m1 != m2,
    ensures
        upd_models(upd_models(ms, m1, r1), m2, r2) == upd_models(upd_models(ms, m2, r2), m1, r1),
{
    let a1 = upd_models(ms, m1, r1);
    let a = upd_models(a1, m2, r2);
    let b1 = upd_models(ms, m2, r2);
    let b = upd_models(b1, m1, r1);
    lemma_upd_models_wf(ms, m1, r1);
    lemma_upd_models_wf(a1, m2, r2);
    lemma_upd_models_wf(ms, m2, r2);
    lemma_upd_models_wf(b1, m1, r1);
    assert forall|k: Seq<char>| #[trigger] find_model(a, k) == find_model(b, k) by {
        lemma_upd_models_find(a1, m2, r2, k);
        lemma_upd_models_find(ms, m1, r1, k);
        lemma_upd_models_find(b1, m1, r1, k);
        lemma_upd_models_find(ms, m2, r2, k);
        lemma_upd_models_find(ms, m1, r1, m2);
        lemma_upd_models_find(ms, m2, r2, m1);
    }
    lemma_models_canon(a, b);
}

/// Folding two devices into the aggregate commutes unless they share
/// both series and model key.
proof fn lemma_upd_series_comm(
    ss: Seq<SeriesEntryV>,
    s1: Seq<char>,
    m1: Seq<char>,
    r1: Seq<ControlTableDataV>,
    s2: Seq<char>,
    m2: Seq<char>,
    r2: Seq<ControlTableDataV>,
)
    requires
        aggregate_wf(ss),
        !(s1 == s2 && m1 == m2),
    ensures
        upd_series(upd_series(ss, s1, m1, r1), s2, m2, r2) == upd_series(
            upd_series(ss, s2, m2, r2),
            s1,
            m1,
            r1,
        ),
{
    let a1 = upd_series(ss, s1, m1, r1);
    let a = upd_series(a1, s2, m2, r2);
    let b1 = upd_series(ss, s2, m2, r2);
    let b = upd_series(b1, s1, m1, r1);
    lemma_upd_series_wf(ss, s1, m1, r1);
    lemma_upd_series_wf(a1, s2, m2, r2);
    lemma_upd_series_wf(ss, s2, m2, r2);
    lemma_upd_series_wf(b1, s1, m1, r1);
    let base1 = series_models_base(ss, s1);
    assert(keys_sorted(model_keys(base1)) && forall|i: int|
        0 <= i < base1.len() ==> model_wf(#[trigger] base1[i])) by {
        if find_series(ss, s1) is Some {
            lemma_find_series_mem(ss, s1);
        } else {
            assert(model_keys(base1) =~= Seq::<Seq<char>>::empty());
        }
    }
    assert forall|k: Seq<char>| #[trigger] find_series(a, k) == find_series(b, k) by {
        lemma_upd_series_find(a1, s2, m2, r2, k);
        lemma_upd_series_find(ss, s1, m1, r1, k);
        lemma_upd_series_find(b1, s1, m1, r1, k);
        lemma_upd_series_find(ss, s2, m2, r2, k);
        lemma_upd_series_find(ss, s1, m1, r1, s2);
        lemma_upd_series_find(ss, s2, m2, r2, s1);
        if s1 == s2 && k == s1 {
            // both orders transform the same base; the two model upserts
            // commute since the model keys differ
            lemma_upd_models_comm(base1, m1, r1, m2, r2);
        }
    }
    lemma_series_canon(a, b);
}

/// A found entry carries the key it was found under.
proof fn lemma_find_series_key(ss: Seq<SeriesEntryV>, k: Seq<char>)
    requires
        find_series(ss, k) is Some,
    ensures
        find_series(ss, k)->Some_0.series == k,
    decreases ss.len(),
{
    if ss.len() > 0 && ss[0].series != k {
        lemma_find_series_key(ss.skip(1), k);
    }
}

proof fn lemma_find_model_key(ms: Seq<ModelEntryV>, k: Seq<char>)
    requires
        find_model(ms, k) is Some,
    ensures
        find_model(ms, k)->Some_0.model == k,
    decreases ms.len(),
{
    if ms.len() > 0 && ms[0].model != k {
        lemma_find_model_key(ms.skip(1), k);
    }
}

/// No two devices share both series and model key.
pub open spec fn dev_keys_distinct(devs: Seq<ActuatorV>) -> bool {
    forall|i: int, j: int|
        0 <= i < j < devs.len() ==> !(series_of(#[trigger] devs[i].series) == series_of(
            #[trigger] devs[j].series,
        ) && model_of(devs[i].raw_name) == model_of(devs[j].raw_name))
}

/// Every device's raw name yields a model key.
pub open spec fn devs_derivable(devs: Seq<ActuatorV>) -> bool {
    forall|i: int|
        0 <= i < devs.len() ==> first_alpha_from((#[trigger] devs[i]).raw_name, 0) >= 0
}

/// Some device carries this series key.
pub open spec fn has_series(devs: Seq<ActuatorV>, s: Seq<char>) -> bool {
    exists|i: int| 0 <= i < devs.len() && series_of((#[trigger] devs[i]).series) == s
}

/// Some device carries this series and model key pair.
pub open spec fn has_dev(devs: Seq<ActuatorV>, s: Seq<char>, m: Seq<char>) -> bool {
    exists|i: int|
        0 <= i < devs.len() && series_of((#[trigger] devs[i]).series) == s && model_of(
            devs[i].raw_name,
        ) == m
}

/// What aggregation of devices with distinct keys builds, key by key:
/// it succeeds; a series entry exists exactly for the series keys
/// present; each device's model entry holds exactly its own records,
/// folded into an empty field map; and no other model entry exists.
proof fn lemma_aggregate_char(devs: Seq<ActuatorV>)
    requires
        devs_derivable(devs),
        dev_keys_distinct(devs),
    ensures
        aggregate_spec(devs) is Ok,
        forall|s: Seq<char>|
            (#[trigger] find_series(aggregate_spec(devs)->Ok_0, s)) is Some <==> has_series(
                devs,
                s,
            ),
        forall|i: int|
            0 <= i < devs.len() ==> {
                let se = find_series(
                    aggregate_spec(devs)->Ok_0,
                    series_of((#[trigger] devs[i]).series),
                );
                se is Some && find_model(se->Some_0.models, model_of(devs[i].raw_name)) == Some(
                    ModelEntryV {
                        model: model_of(devs[i].raw_name),
                        fields: fields_into(Seq::empty(), devs[i].data),
                    },
                )
            },
        forall|s: Seq<char>, m: Seq<char>|
            !(#[trigger] has_dev(devs, s, m)) ==> (match find_series(
                aggregate_spec(devs)->Ok_0,
                s,
            ) {
                Some(se) => find_model(se.models, m) is None,
                None => true,
            }),
    decreases devs.len(),
{
    if devs.len() == 0 {
        assert forall|s: Seq<char>|
            !((#[trigger] find_series(aggregate_spec(devs)->Ok_0, s)) is Some) by {}
    } else {
        let prefix = devs.drop_last();
        assert(devs_derivable(prefix) && dev_keys_distinct(prefix)) by {
            assert(forall|i: int| 0 <= i < prefix.len() ==> prefix[i] == devs[i]);
        }
        lemma_aggregate_char(prefix);
        lemma_aggregate_sorted(prefix);
        let prev = aggregate_spec(prefix)->Ok_0;
        let d = devs.last();
        let sd = series_of(d.series);
        let md = model_of(d.raw_name);
        assert(first_alpha_from(d.raw_name, 0) >= 0) by {
            assert(devs[devs.len() - 1] == d);
        }
        let ss = upd_series(prev, sd, md, d.data);
        assert(aggregate_spec(devs) == Ok::<Seq<SeriesEntryV>, GenErrorV>(ss));
        let base = series_models_base(prev, sd);
        assert(keys_sorted(model_keys(base))) by {
            if find_series(prev, sd) is Some {
                lemma_find_series_mem(prev, sd);
            } else {
                assert(model_keys(base) =~= Seq::<Seq<char>>::empty());
            }
        }
        // the new device's model key is fresh in its series
        assert(find_model(base, md) is None) by {
            assert(!has_dev(prefix, sd, md)) by {
                if has_dev(prefix, sd, md) {
                    let i = choose|i: int|
                        0 <= i < prefix.len() && series_of(
                            (#[trigger] prefix[i]).series,
                        ) == sd && model_of(prefix[i].raw_name) == md;
                    assert(devs[i] == prefix[i]);
                    assert(devs[devs.len() - 1] == d);
                    assert(false);
                }
            }
            if find_series(prev, sd) is Some {
                assert(base == find_series(prev, sd)->Some_0.models);
            } else {
                assert(base =~= Seq::<ModelEntryV>::empty());
            }
        }
        assert(model_fields_base(base, md) =~= Seq::<FieldEntryV>::empty());
        // presence of series keys
        assert forall|s: Seq<char>|
            (#[trigger] find_series(ss, s)) is Some <==> has_series(devs, s) by {
            lemma_upd_series_find(prev, sd, md, d.data, s);
            if s == sd {
                assert(series_of(devs[devs.len() - 1].series) == s);
                assert(has_series(devs, s));
            } else {
                if find_series(ss, s) is Some {
                    assert(find_series(prev, s) is Some);
                    let i = choose|i: int|
                        0 <= i < prefix.len() && series_of((#[trigger] prefix[i]).series) == s;
                    assert(series_of(devs[i].series) == s);
                    assert(has_series(devs, s));
                }
                if has_series(devs, s) {
                    let i = choose|i: int|
                        0 <= i < devs.len() && series_of((#[trigger] devs[i]).series) == s;
                    assert(i < prefix.len());
                    assert(prefix[i] == devs[i]);
                    assert(has_series(prefix, s));
                }
            }
        }
        // each device finds its own fields
        assert forall|i: int| 0 <= i < devs.len() implies {
            let se = find_series(ss, series_of((#[trigger] devs[i]).series));
            se is Some && find_model(se->Some_0.models, model_of(devs[i].raw_name)) == Some(
                ModelEntryV {
                    model: model_of(devs[i].raw_name),
                    fields: fields_into(Seq::empty(), devs[i].data),
                },
            )
        } by {
            let si = series_of(devs[i].series);
            let mi = model_of(devs[i].raw_name);
            lemma_upd_series_find(prev, sd, md, d.data, si);
            if i == devs.len() - 1 {
                assert(devs[i] == d);
                lemma_upd_models_find(base, md, d.data, md);
            } else {
                assert(prefix[i] == devs[i]);
                if si == sd {
                    assert(mi != md) by {
                        assert(devs[devs.len() - 1] == d);
                    }
                    lemma_upd_models_find(base, md, d.data, mi);
                    assert(find_series(prev, si) is Some);
                    assert(base == find_series(prev, si)->Some_0.models);
                } else {
                }
            }
        }
        // no other model entries
        assert forall|s: Seq<char>, m: Seq<char>|
            !(#[trigger] has_dev(devs, s, m)) implies (match find_series(ss, s) {
            Some(se) => find_model(se.models, m) is None,
            None => true,
        }) by {
            lemma_upd_series_find(prev, sd, md, d.data, s);
            assert(!has_dev(prefix, s, m)) by {
                if has_dev(prefix, s, m) {
                    let i = choose|i: int|
                        0 <= i < prefix.len() && series_of(
                            (#[trigger] prefix[i]).series,
                        ) == s && model_of(prefix[i].raw_name) == m;
                    assert(devs[i] == prefix[i]);
                    assert(has_dev(devs, s, m));
                }
            }
            if s == sd {
                assert(!(s == sd && m == md)) by {
                    assert(devs[devs.len() - 1] == d);
                }
                lemma_upd_models_find(base, md, d.data, m);
            }
        }
    }
}

/// Inserting a name keeps the set sorted.
proof fn lemma_insert_name_sorted(ns: Seq<Seq<char>>, n: Seq<char>)
    requires
        keys_sorted(ns),
    ensures
        keys_sorted(insert_name(ns, n)),
{
    let p = lower_bound(ns, n);
    if p < ns.len() && ns[p] == n {
    } else {
        lemma_keys_insert_sorted(ns, n);
    }
}

/// What the name set holds after an insertion.
proof fn lemma_insert_name_contains(ns: Seq<Seq<char>>, n: Seq<char>, x: Seq<char>)
    ensures
        insert_name(ns, n).contains(x) <==> (ns.contains(x) || x == n),
{
    let p = lower_bound(ns, n);
    lemma_lower_bound_props(ns, n, 0);
    if p < ns.len() && ns[p] == n {
        if x == n {
            assert(ns.contains(x)) by {
                assert(ns[p] == x);
            }
        }
    } else {
        let ns2 = ns.insert(p, n);
        ns.insert_ensures(p, n);
        if ns.contains(x) {
            let i = choose|i: int| 0 <= i < ns.len() && ns[i] == x;
            if i < p {
                assert(ns2[i] == x);
            } else {
                assert(ns2[i + 1] == x);
            }
            assert(ns2.contains(x));
        }
        if x == n {
            assert(ns2[p] == x);
            assert(ns2.contains(x));
        }
        if ns2.contains(x) && x != n {
            let i = choose|i: int| 0 <= i < ns2.len() && ns2[i] == x;
            if i < p {
                assert(ns[i] == x);
                assert(ns.contains(x));
            } else if i == p {
                assert(false);
            } else {
                assert(ns[i - 1] == x);
                assert(ns.contains(x));
            }
        }
    }
}

/// A record sequence carries the name `x`.
pub open spec fn records_have_name(records: Seq<ControlTableDataV>, x: Seq<char>) -> bool {
    exists|j: int| 0 <= j < records.len() && (#[trigger] records[j]).data_name == Some(x)
}

/// What folding records into a name set leaves in it.
proof fn lemma_names_into_contains(
    ns: Seq<Seq<char>>,
    records: Seq<ControlTableDataV>,
    x: Seq<char>,
)
    ensures
        names_into(ns, records).contains(x) <==> (ns.contains(x) || records_have_name(
            records,
            x,
        )),
    decreases records.len(),
{
    if records.len() > 0 {
        lemma_names_into_contains(ns, records.drop_last(), x);
        match records.last().data_name {
            Some(n) => {
                lemma_insert_name_contains(names_into(ns, records.drop_last()), n, x);
            },
            None => {},
        }
        if records_have_name(records, x) && !records_have_name(records.drop_last(), x) {
            let j = choose|j: int|
                0 <= j < records.len() && (#[trigger] records[j]).data_name == Some(x);
            assert(j == records.len() - 1) by {
                if j < records.len() - 1 {
                    assert(records.drop_last()[j] == records[j]);
                }
            }
        }
        if records_have_name(records.drop_last(), x) {
            let j = choose|j: int|
                0 <= j < records.drop_last().len() && (#[trigger] records.drop_last()[j]).data_name
                    == Some(x);
            assert(records[j] == records.drop_last()[j]);
        }
    }
}

/// Folding records into a sorted name set keeps it sorted.
proof fn lemma_names_into_sorted(ns: Seq<Seq<char>>, records: Seq<ControlTableDataV>)
    requires
        keys_sorted(ns),
    ensures
        keys_sorted(names_into(ns, records)),
    decreases records.len(),
{
    if records.len() > 0 {
        lemma_names_into_sorted(ns, records.drop_last());
        match records.last().data_name {
            Some(n) => {
                lemma_insert_name_sorted(names_into(ns, records.drop_last()), n);
            },
            None => {},
        }
    }
}

/// A device sequence carries the name `x`.
pub open spec fn devs_have_name(devs: Seq<ActuatorV>, x: Seq<char>) -> bool {
    exists|i: int| 0 <= i < devs.len() && records_have_name((#[trigger] devs[i]).data, x)
}

/// The collected name set holds exactly the devices' field names, sorted.
proof fn lemma_all_names_char(devs: Seq<ActuatorV>, x: Seq<char>)
    ensures
        keys_sorted(all_names(devs)),
        all_names(devs).contains(x) <==> devs_have_name(devs, x),
    decreases devs.len(),
{
    if devs.len() == 0 {
    } else {
        let prefix = devs.drop_last();
        lemma_all_names_char(prefix, x);
        lemma_names_into_sorted(all_names(prefix), devs.last().data);
        lemma_names_into_contains(all_names(prefix), devs.last().data, x);
        if devs_have_name(prefix, x) {
            let i = choose|i: int|
                0 <= i < prefix.len() && records_have_name((#[trigger] prefix[i]).data, x);
            assert(devs[i] == prefix[i]);
        }
        if records_have_name(devs.last().data, x) {
            assert(records_have_name(devs[devs.len() - 1].data, x));
        }
        if devs_have_name(devs, x) && !records_have_name(devs.last().data, x) {
            let i = choose|i: int|
                0 <= i < devs.len() && records_have_name((#[trigger] devs[i]).data, x);
            assert(i < prefix.len()) by {
                if i == devs.len() - 1 {
                    assert(false);
                }
            }
            assert(prefix[i] == devs[i]);
        }
    }
}

/// Two sorted name sets with the same members are the same sequence.
proof fn lemma_names_canon(a: Seq<Seq<char>>, b: Seq<Seq<char>>)
    requires
        keys_sorted(a),
        keys_sorted(b),
        forall|x: Seq<char>| a.contains(x) <==> b.contains(x),
    ensures
        a == b,
    decreases a.len() + b.len(),
{
    if a.len() == 0 && b.len() == 0 {
        assert(a =~= b);
    } else if a.len() == 0 {
        assert(b.contains(b[0]));
        assert(!a.contains(b[0]));
        assert(false);
    } else if b.len() == 0 {
        assert(a.contains(a[0]));
        assert(!b.contains(a[0]));
        assert(false);
    } else {
        if a[0] != b[0] {
            assert(b.contains(a[0])) by {
                assert(a.contains(a[0]));
            }
            let i = choose|i: int| 0 <= i < b.len() && b[i] == a[0];
            assert(lex_lt(b[0], a[0])) by {
                assert(i != 0);
                lemma_keys_sorted_all(b, 0, i);
            }
            assert(a.contains(b[0])) by {
                assert(b.contains(b[0]));
            }
            let j = choose|j: int| 0 <= j < a.len() && a[j] == b[0];
            assert(lex_lt(a[0], b[0])) by {
                assert(j != 0);
                lemma_keys_sorted_all(a, 0, j);
            }
            crate::text::lemma_lex_lt_trichotomy(a[0], b[0]);
            assert(false);
        }
        lemma_keys_sorted_skip(a);
        lemma_keys_sorted_skip(b);
        assert forall|x: Seq<char>| a.skip(1).contains(x) <==> b.skip(1).contains(x) by {
            if a.skip(1).contains(x) {
                let i = choose|i: int| 0 <= i < a.skip(1).len() && a.skip(1)[i] == x;
                assert(a[i + 1] == x);
                lemma_keys_sorted_all(a, 0, i + 1);
                assert(a.contains(x));
                assert(b.contains(x));
                let j = choose|j: int| 0 <= j < b.len() && b[j] == x;
                assert(j != 0) by {
                    crate::text::lemma_lex_lt_trichotomy(a[0], x);
                }
                assert(b.skip(1)[j - 1] == x);
                assert(b.skip(1).contains(x));
            }
            if b.skip(1).contains(x) {
                let i = choose|i: int| 0 <= i < b.skip(1).len() && b.skip(1)[i] == x;
                assert(b[i + 1] == x);
                lemma_keys_sorted_all(b, 0, i + 1);
                assert(b.contains(x));
                assert(a.contains(x));
                let j = choose|j: int| 0 <= j < a.len() && a[j] == x;
                assert(j != 0) by {
                    crate::text::lemma_lex_lt_trichotomy(b[0], x);
                }
                assert(a.skip(1)[j - 1] == x);
                assert(a.skip(1).contains(x));
            }
        }
        lemma_names_canon(a.skip(1), b.skip(1));
        assert(a =~= b) by {
            assert(forall|i: int| 1 <= i < a.len() ==> a[i] == a.skip(1)[i - 1]);
            assert(forall|i: int| 1 <= i < b.len() ==> b[i] == b.skip(1)[i - 1]);
        }
    }
}

/// Determinism of aggregation in any input order: two device sequences
/// with pairwise distinct series–model keys that contain the same
/// devices — in particular, any two orderings of one device set — build
/// the same aggregate, and so the same generated text.
pub proof fn lemma_aggregate_order_independent(devs1: Seq<ActuatorV>, devs2: Seq<ActuatorV>)
    requires
        devs_derivable(devs1),
        devs_derivable(devs2),
        dev_keys_distinct(devs1),
        dev_keys_distinct(devs2),
        forall|d: ActuatorV| devs1.contains(d) <==> devs2.contains(d),
    ensures
        aggregate_spec(devs1) == aggregate_spec(devs2),
        all_names(devs1) == all_names(devs2),
{
    assert forall|x: Seq<char>|
        all_names(devs1).contains(x) <==> all_names(devs2).contains(x) by {
        lemma_all_names_char(devs1, x);
        lemma_all_names_char(devs2, x);
        if devs_have_name(devs1, x) {
            let i = choose|i: int|
                0 <= i < devs1.len() && records_have_name((#[trigger] devs1[i]).data, x);
            assert(devs1.contains(devs1[i]));
            let j = choose|j: int| 0 <= j < devs2.len() && devs2[j] == devs1[i];
            assert(records_have_name(devs2[j].data, x));
            assert(devs_have_name(devs2, x));
        }
        if devs_have_name(devs2, x) {
            let i = choose|i: int|
                0 <= i < devs2.len() && records_have_name((#[trigger] devs2[i]).data, x);
            assert(devs2.contains(devs2[i]));
            let j = choose|j: int| 0 <= j < devs1.len() && devs1[j] == devs2[i];
            assert(records_have_name(devs1[j].data, x));
            assert(devs_have_name(devs1, x));
        }
    }
    lemma_all_names_char(devs1, Seq::empty());
    lemma_all_names_char(devs2, Seq::empty());
    lemma_names_canon(all_names(devs1), all_names(devs2));
    lemma_aggregate_char(devs1);
    lemma_aggregate_char(devs2);
    lemma_aggregate_sorted(devs1);
    lemma_aggregate_sorted(devs2);
    let ss1 = aggregate_spec(devs1)->Ok_0;
    let ss2 = aggregate_spec(devs2)->Ok_0;
    assert forall|s: Seq<char>, m: Seq<char>|
        #[trigger] has_dev(devs1, s, m) <==> #[trigger] has_dev(devs2, s, m) by {
        if has_dev(devs1, s, m) {
            let i = choose|i: int|
                0 <= i < devs1.len() && series_of((#[trigger] devs1[i]).series) == s && model_of(
                    devs1[i].raw_name,
                ) == m;
            assert(devs1.contains(devs1[i]));
            let j = choose|j: int| 0 <= j < devs2.len() && devs2[j] == devs1[i];
            assert(series_of((devs2[j]).series) == s && model_of(devs2[j].raw_name) == m);
        }
        if has_dev(devs2, s, m) {
            let i = choose|i: int|
                0 <= i < devs2.len() && series_of((#[trigger] devs2[i]).series) == s && model_of(
                    devs2[i].raw_name,
                ) == m;
            assert(devs2.contains(devs2[i]));
            let j = choose|j: int| 0 <= j < devs1.len() && devs1[j] == devs2[i];
            assert(series_of((devs1[j]).series) == s && model_of(devs1[j].raw_name) == m);
        }
    }
    assert forall|k: Seq<char>| #[trigger] find_series(ss1, k) == find_series(ss2, k) by {
        if has_series(devs1, k) || has_series(devs2, k) {
            // both sides hold a series entry under k
            assert(has_series(devs1, k) && has_series(devs2, k)) by {
                if has_series(devs1, k) {
                    let i = choose|i: int|
                        0 <= i < devs1.len() && series_of((#[trigger] devs1[i]).series) == k;
                    assert(devs1.contains(devs1[i]));
                    let j = choose|j: int| 0 <= j < devs2.len() && devs2[j] == devs1[i];
                    assert(series_of((devs2[j]).series) == k);
                } else {
                    let i = choose|i: int|
                        0 <= i < devs2.len() && series_of((#[trigger] devs2[i]).series) == k;
                    assert(devs2.contains(devs2[i]));
                    let j = choose|j: int| 0 <= j < devs1.len() && devs1[j] == devs2[i];
                    assert(series_of((devs1[j]).series) == k);
                }
            }
            let se1 = find_series(ss1, k)->Some_0;
            let se2 = find_series(ss2, k)->Some_0;
            lemma_find_series_key(ss1, k);
            lemma_find_series_key(ss2, k);
            assert(keys_sorted(model_keys(se1.models))) by {
                lemma_find_series_mem(ss1, k);
            }
            assert(keys_sorted(model_keys(se2.models))) by {
                lemma_find_series_mem(ss2, k);
            }
            assert forall|m: Seq<char>|
                #[trigger] find_model(se1.models, m) == find_model(se2.models, m) by {
                if has_dev(devs1, k, m) {
                    let i = choose|i: int|
                        0 <= i < devs1.len() && series_of(
                            (#[trigger] devs1[i]).series,
                        ) == k && model_of(devs1[i].raw_name) == m;
                    assert(devs1.contains(devs1[i]));
                    let j = choose|j: int| 0 <= j < devs2.len() && devs2[j] == devs1[i];
                    assert(find_model(se1.models, m) == Some(
                        ModelEntryV { model: m, fields: fields_into(Seq::empty(), devs1[i].data) },
                    ));
                    assert(find_model(se2.models, m) == Some(
                        ModelEntryV { model: m, fields: fields_into(Seq::empty(), devs2[j].data) },
                    ));
                } else {
                    assert(!has_dev(devs2, k, m));
                    assert(find_model(se1.models, m) is None);
                    assert(find_model(se2.models, m) is None);
                }
            }
            lemma_models_canon(se1.models, se2.models);
            assert(se1 == se2);
        } else {
            assert(find_series(ss1, k) is None);
            assert(find_series(ss2, k) is None);
        }
    }
    lemma_series_canon(ss1, ss2);
}

/// Aggregation of equal prefixes and equal remainders agrees.
proof fn lemma_aggregate_suffix(a: Seq<ActuatorV>, b: Seq<ActuatorV>, k: int)
    requires
        0 <= k <= a.len(),
        a.len() == b.len(),
        aggregate_spec(a.take(k)) == aggregate_spec(b.take(k)),
        forall|i: int| k <= i < a.len() ==> a[i] == b[i],
    ensures
        aggregate_spec(a) == aggregate_spec(b),
    decreases a.len() - k,
{
    if k == a.len() {
        assert(a.take(k) =~= a);
        assert(b.take(k) =~= b);
    } else {
        assert(a.take(k + 1).drop_last() =~= a.take(k));
        assert(a.take(k + 1).last() == a[k]);
        assert(b.take(k + 1).drop_last() =~= b.take(k));
        assert(b.take(k + 1).last() == b[k]);
        assert(aggregate_spec(a.take(k + 1)) == aggregate_spec(b.take(k + 1)));
        lemma_aggregate_suffix(a, b, k + 1);
    }
}

/// Determinism of aggregation under input order: swapping two
/// neighbouring devices leaves the aggregate — and so the generated text
/// — unchanged, provided both have a derivable model key and they do not
/// share both series and model key. Adjacent transpositions generate
/// every permutation, so aggregation over such a device set does not
/// depend on the order the devices arrive in.
pub proof fn lemma_aggregate_swap_adjacent(devs: Seq<ActuatorV>, i: int)
    requires
        0 <= i < devs.len() - 1,
        first_alpha_from(devs[i].raw_name, 0) >= 0,
        first_alpha_from(devs[i + 1].raw_name, 0) >= 0,
        !(series_of(devs[i].series) == series_of(devs[i + 1].series) && model_of(
            devs[i].raw_name,
        ) == model_of(devs[i + 1].raw_name)),
    ensures
        aggregate_spec(devs.update(i, devs[i + 1]).update(i + 1, devs[i])) == aggregate_spec(
            devs,
        ),
{
    let sw = devs.update(i, devs[i + 1]).update(i + 1, devs[i]);
    assert(sw.len() == devs.len());
    assert(sw.take(i) =~= devs.take(i));
    let pre = aggregate_spec(devs.take(i));
    if pre is Err {
        lemma_aggregate_prefix_err(devs, i);
        lemma_aggregate_prefix_err(sw, i);
    } else {
        let ss = pre->Ok_0;
        lemma_aggregate_sorted(devs.take(i));
        let d1 = devs[i];
        let d2 = devs[i + 1];
        assert(devs.take(i + 1).drop_last() =~= devs.take(i));
        assert(devs.take(i + 1).last() == d1);
        assert(devs.take(i + 2).drop_last() =~= devs.take(i + 1));
        assert(devs.take(i + 2).last() == d2);
        assert(sw.take(i + 1).drop_last() =~= sw.take(i));
        assert(sw.take(i + 1).last() == d2);
        assert(sw.take(i + 2).drop_last() =~= sw.take(i + 1));
        assert(sw.take(i + 2).last() == d1);
        let s1 = series_of(d1.series);
        let m1 = model_of(d1.raw_name);
        let s2 = series_of(d2.series);
        let m2 = model_of(d2.raw_name);
        assert(aggregate_spec(devs.take(i + 1)) == Ok::<Seq<SeriesEntryV>, GenErrorV>(
            upd_series(ss, s1, m1, d1.data),
        ));
        assert(aggregate_spec(devs.take(i + 2)) == Ok::<Seq<SeriesEntryV>, GenErrorV>(
            upd_series(upd_series(ss, s1, m1, d1.data), s2, m2, d2.data),
        ));
        assert(aggregate_spec(sw.take(i + 1)) == Ok::<Seq<SeriesEntryV>, GenErrorV>(
            upd_series(ss, s2, m2, d2.data),
        ));
        assert(aggregate_spec(sw.take(i + 2)) == Ok::<Seq<SeriesEntryV>, GenErrorV>(
            upd_series(upd_series(ss, s2, m2, d2.data), s1, m1, d1.data),
        ));
        lemma_upd_series_comm(ss, s1, m1, d1.data, s2, m2, d2.data);
        lemma_aggregate_suffix(devs, sw, i + 2);
    }
}

/// How a character appears inside a generated string literal.
pub open spec fn escape_char(c: char) -> Seq<char> {
    if c == '"' {
        seq!['\\', '"']
    } else if c == '\\' {
        seq!['\\', '\\']
    } else if c == '\n' {
        seq!['\\', 'n']
    } else if c == '\t' {
        seq!['\\', 't']
    } else if c == '\r' {
        seq!['\\', 'r']
    } else {
        seq![c]
    }
}

/// `s` escaped for a generated string literal.
pub open spec fn escape_seq(s: Seq<char>) -> Seq<char>
    decreases s.len(),
{
    if s.len() == 0 {
        Seq::empty()
    } else {
        escape_seq(s.drop_last()) + escape_char(s.last())
    }
}

/// Escapes text for a generated string literal.
fn escape_text(s: &str) -> (r: String)
    ensures
        r@ == escape_seq(s@),
{
    let cs = chars_of(s);
    let mut out: Vec<char> = Vec::new();
    let mut i: usize = 0;
    proof {
        assert(cs@.take(0) =~= Seq::<char>::empty());
    }
    while i < cs.len()
        invariant
            i <= cs.len(),
            cs@ == s@,
            out@ == escape_seq(s@.take(i as int)),
        decreases cs.len() - i,
    {
        proof {
            assert(s@.take(i as int + 1).drop_last() =~= s@.take(i as int));
            assert(s@.take(i as int + 1).last() == s@[i as int]);
        }
        let c = cs[i];
        if c == '"' {
            out.push('\\');
            out.push('"');
        } else if c == '\\' {
            out.push('\\');
            out.push('\\');
        } else if c == '\n' {
            out.push('\\');
            out.push('n');
        } else if c == '\t' {
            out.push('\\');
            out.push('t');
        } else if c == '\r' {
            out.push('\\');
            out.push('r');
        } else {
            out.push(c);
        }
        proof {
            assert(out@ =~= escape_seq(s@.take(i as int + 1)));
        }
        i += 1;
    }
    proof {
        assert(s@.take(s@.len() as int) =~= s@);
    }
    string_from_chars(&out)
}

/// The field names joined for the generated enumeration body.
pub open spec fn join_names(ns: Seq<Seq<char>>) -> Seq<char>
    decreases ns.len(),
{
    if ns.len() == 0 {
        Seq::empty()
    } else if ns.len() == 1 {
        ns[0]
    } else {
        join_names(ns.drop_last()) + ",\n    "@ + ns.last()
    }
}

/// The series keys joined, each quoted, for the default feature list.
pub open spec fn join_quoted(ks: Seq<Seq<char>>) -> Seq<char>
    decreases ks.len(),
{
    if ks.len() == 0 {
        Seq::empty()
    } else if ks.len() == 1 {
        "\""@ + ks[0] + "\""@
    } else {
        join_quoted(ks.drop_last()) + ", \""@ + ks.last() + "\""@
    }
}

/// The generated expression for an access level.
pub open spec fn access_text(a: AccessLevel) -> Seq<char> {
    match a {
        AccessLevel::Read => "AccessLevel::Read"@,
        AccessLevel::Write => "AccessLevel::Write"@,
        AccessLevel::ReadWrite => "AccessLevel::ReadWrite"@,
    }
}

/// The generated expression for a range value.
pub open spec fn rv_text(v: RangeValueV) -> Seq<char> {
    match v {
        RangeValueV::Integer(n) => "RangeValue::Integer("@ + dec_int(n) + ")"@,
        RangeValueV::Symbolic { field_name, negated } => "RangeValue::Symbolic { field_name: DataName::"@
            + field_name + ", negated: "@ + (if negated {
            "true"@
        } else {
            "false"@
        }) + " }"@,
    }
}

/// The generated expression for an optional range value.
pub open spec fn opt_rv_text(v: Option<RangeValueV>) -> Seq<char> {
    match v {
        Some(x) => "Some("@ + rv_text(x) + ")"@,
        None => "None"@,
    }
}

/// The generated expression for an optional range pair.
pub open spec fn range_text(r: Option<(RangeValueV, RangeValueV)>) -> Seq<char> {
    match r {
        Some((lo, hi)) => "Some(("@ + rv_text(lo) + ", "@ + rv_text(hi) + "))"@,
        None => "None"@,
    }
}

/// The generated expression for an optional description.
pub open spec fn desc_text(d: Option<Seq<char>>) -> Seq<char> {
    match d {
        Some(s) => "Some(\""@ + escape_seq(s) + "\")"@,
        None => "None"@,
    }
}

/// One generated match arm: a field name mapped to its record literal.
pub open spec fn record_text(name: Seq<char>, d: ControlTableDataV) -> Seq<char> {
    "\n            DataName::"@ + name + " => Ok(ControlTableData {"@ + "\n                address: "@
        + dec_digits(d.address as nat) + ","@ + "\n                size: "@ + dec_digits(
        d.size as nat,
    ) + ","@ + "\n                description: "@ + desc_text(d.description) + ","@
        + "\n                access: "@ + access_text(d.access) + ","@
        + "\n                initial_value: "@ + opt_rv_text(d.initial_value) + ","@
        + "\n                range: "@ + range_text(d.range) + ","@ + "\n            }),"@
}

/// Stable insertion of a field after every entry whose address is not
/// greater.
pub open spec fn insert_by_addr(rs: Seq<FieldEntryV>, f: FieldEntryV) -> Seq<FieldEntryV>
    decreases rs.len(),
{
    if rs.len() == 0 {
        seq![f]
    } else if f.data.address < rs[0].data.address {
        seq![f] + rs
    } else {
        seq![rs[0]] + insert_by_addr(rs.skip(1), f)
    }
}

/// The fields sorted by ascending address, ties kept in key order.
pub open spec fn sort_by_addr(fs: Seq<FieldEntryV>) -> Seq<FieldEntryV>
    decreases fs.len(),
{
    if fs.len() == 0 {
        Seq::empty()
    } else {
        insert_by_addr(sort_by_addr(fs.drop_last()), fs.last())
    }
}

/// Inserting at the position the order picks is the stable insertion.
proof fn lemma_insert_by_addr_pos(rs: Seq<FieldEntryV>, f: FieldEntryV, q: int)
    requires
        0 <= q <= rs.len(),
        forall|j: int| 0 <= j < q ==> !(f.data.address < #[trigger] rs[j].data.address),
        q == rs.len() || f.data.address < rs[q].data.address,
    ensures
        insert_by_addr(rs, f) == rs.insert(q, f),
    decreases q,
{
    if q == 0 {
        if rs.len() == 0 {
            assert(insert_by_addr(rs, f) =~= rs.insert(0, f));
        } else {
            assert(insert_by_addr(rs, f) =~= rs.insert(0, f));
        }
    } else {
        assert(!(f.data.address < rs[0].data.address));
        lemma_insert_by_addr_pos(rs.skip(1), f, q - 1);
        assert(seq![rs[0]] + rs.skip(1).insert(q - 1, f) =~= rs.insert(q, f));
    }
}

/// The fields sorted by ascending address.
fn sort_fields(fs: &Vec<FieldEntry>) -> (r: Vec<FieldEntry>)
    ensures
        r.deep_view() == sort_by_addr(fs.deep_view()),
{
    let ghost fsv = fs.deep_view();
    let mut out: Vec<FieldEntry> = Vec::new();
    proof {
        assert(fsv.take(0) =~= Seq::<FieldEntryV>::empty());
        assert(out.deep_view() =~= Seq::<FieldEntryV>::empty());
    }
    let mut i: usize = 0;
    while i < fs.len()
        invariant
            i <= fs.len(),
            fsv == fs.deep_view(),
            fsv.len() == fs.len(),
            out.deep_view() == sort_by_addr(fsv.take(i as int)),
        decreases fs.len() - i,
    {
        proof {
            assert(fsv.take(i as int + 1).drop_last() =~= fsv.take(i as int));
            assert(fsv.take(i as int + 1).last() == fsv[i as int]);
        }
        let entry = FieldEntry { name: fs[i].name.clone(), data: fs[i].data.duplicate() };
        proof {
            assert(entry@ == fsv[i as int]);
        }
        let ghost outv = out.deep_view();
        let ghost e = entry@;
        let mut q: usize = 0;
        while q < out.len() && out[q].data.address <= entry.data.address
            invariant
                q <= out.len(),
                outv == out.deep_view(),
                outv.len() == out.len(),
                e == entry@,
                forall|j: int|
                    0 <= j < q ==> !(e.data.address < (#[trigger] outv[j]).data.address),
            decreases out.len() - q,
        {
            proof {
                assert(outv[q as int].data.address == out@[q as int]@.data.address);
            }
            q += 1;
        }
        proof {
            if q < out.len() {
                assert(e.data.address < outv[q as int].data.address);
            }
            lemma_insert_by_addr_pos(outv, e, q as int);
        }
        out.insert(q, entry);
        proof {
            assert(out.deep_view() =~= outv.insert(q as int, fsv[i as int]));
        }
        i += 1;
    }
    proof {
        assert(fsv.take(fs.len() as int) =~= fsv);
    }
    out
}

/// The generated match arms of one model's fields, in the given order.
pub open spec fn fields_text(fs: Seq<FieldEntryV>) -> Seq<char>
    decreases fs.len(),
{
    if fs.len() == 0 {
        Seq::empty()
    } else {
        fields_text(fs.drop_last()) + record_text(fs.last().name, fs.last().data)
    }
}

/// The generated match over one model's fields, gated to its series.
pub open spec fn model_text(series: Seq<char>, m: ModelEntryV) -> Seq<char> {
    "\n        #[cfg(feature = \""@ + series + "\")]"@ + "\n        Model::"@ + m.model
        + " => match name {"@ + fields_text(sort_by_addr(m.fields))
        + "\n            _ => Err(ControlTableError::NoMatchingAddress { model, name }),"@
        + "\n        },"@
}

/// The generated matches of one series' models.
pub open spec fn series_models_text(series: Seq<char>, ms: Seq<ModelEntryV>) -> Seq<char>
    decreases ms.len(),
{
    if ms.len() == 0 {
        Seq::empty()
    } else {
        series_models_text(series, ms.drop_last()) + model_text(series, ms.last())
    }
}

/// The generated matches of all models.
pub open spec fn series_matches_text(ss: Seq<SeriesEntryV>) -> Seq<char>
    decreases ss.len(),
{
    if ss.len() == 0 {
        Seq::empty()
    } else {
        series_matches_text(ss.drop_last()) + series_models_text(
            ss.last().series,
            ss.last().models,
        )
    }
}

/// One generated model enum variant, gated to its series.
pub open spec fn model_variant_text(series: Seq<char>, model: Seq<char>) -> Seq<char> {
    "    #[cfg(feature = \""@ + series + "\")]\n    "@ + model + ",\n"@
}

/// The generated enum variants of one series' models.
pub open spec fn series_enum_text(series: Seq<char>, ms: Seq<ModelEntryV>) -> Seq<char>
    decreases ms.len(),
{
    if ms.len() == 0 {
        Seq::empty()
    } else {
        series_enum_text(series, ms.drop_last()) + model_variant_text(series, ms.last().model)
    }
}

/// The generated model enum body.
pub open spec fn model_enum_text(ss: Seq<SeriesEntryV>) -> Seq<char>
    decreases ss.len(),
{
    if ss.len() == 0 {
        Seq::empty()
    } else {
        model_enum_text(ss.drop_last()) + series_enum_text(ss.last().series, ss.last().models)
    }
}

/// The generated per-series feature lines of the manifest.
pub open spec fn cargo_lines_text(ss: Seq<SeriesEntryV>) -> Seq<char>
    decreases ss.len(),
{
    if ss.len() == 0 {
        Seq::empty()
    } else {
        cargo_lines_text(ss.drop_last()) + "\n"@ + ss.last().series + " = []"@
    }
}

/// The generated error declaration.
pub open spec fn err_def_text() -> Seq<char> {
    "use thiserror::Error;\n\n#[derive(Error, Debug)]\npub enum ControlTableError {\n    #[error(\"Dynamixel model {model:?} does not support field {name:?}\")]\n    NoMatchingAddress { model: Model, name: DataName },\n}\n\n"@
}

/// The generated record and enum declarations.
pub open spec fn control_table_text() -> Seq<char> {
    "/// The levels of permission a user is granted in terms of an item in the\n/// control table.\n#[derive(Debug)]\npub enum AccessLevel {\n    Read,\n    Write,\n    ReadWrite,\n}\n\n/// An item that represents either the min, max, or initial value of a given\n/// address.\n#[derive(Debug)]\npub enum RangeValue {\n    Integer(i64),\n    Symbolic { field_name: DataName, negated: bool },\n}\n\n/// A representation of an item in the control table, where only information\n/// is stored. When applicable, items in the control table are represented in\n/// this format, along with any optional data such as range or description.\n#[derive(Debug)]\npub struct ControlTableData {\n    pub address: u16,\n    pub size: u8,\n    pub description: Option<&'static str>,\n    pub access: AccessLevel,\n    pub initial_value: Option<RangeValue>,\n    pub range: Option<(RangeValue, RangeValue)>,\n}\n\n"@
}

/// The derive line above each generated enum.
pub open spec fn derives_text() -> Seq<char> {
    "#[derive(Clone, Copy, Debug)]"@
}

/// The manifest preamble.
pub open spec fn cargo_preamble_text() -> Seq<char> {
    "[package]\nname = \"dxl-control-tables\"\nversion = \"0.1.0\"\nedition = \"2018\"\n\n[dependencies]\nthiserror = \"1.0.26\"\n\n[features]\n"@
}

/// The whole generated library source: the error declaration, the record
/// declarations, the field-name enumeration, the series-gated model
/// enumeration, and the lookup function whose arms are sorted by
/// ascending address within each model.
pub open spec fn lib_text(ss: Seq<SeriesEntryV>, ns: Seq<Seq<char>>) -> Seq<char> {
    err_def_text() + control_table_text() + derives_text() + "\npub enum DataName {\n    "@
        + join_names(ns) + ",\n}\n\n"@ + derives_text() + "\npub enum Model {\n"@
        + model_enum_text(ss) + "}\n"@
        + "\npub fn data(model: Model, name: DataName) -> Result<ControlTableData, ControlTableError> {"@
        + "\n    match model {"@ + series_matches_text(ss) + "\n    }"@ + "\n}\n"@
}

/// The whole generated manifest: the preamble, the default feature list
/// naming every series, and one optional-inclusion line per series.
pub open spec fn cargo_text(ss: Seq<SeriesEntryV>) -> Seq<char> {
    cargo_preamble_text() + "default = ["@ + join_quoted(series_keys(ss)) + "]"@
        + cargo_lines_text(ss) + "\n"@
}

/// One generated match arm of the address-only mode: a field name mapped
/// to its address.
pub open spec fn addr_record_text(name: Seq<char>, d: ControlTableDataV) -> Seq<char> {
    "\n            DataName::"@ + name + " => Ok("@ + dec_digits(d.address as nat) + "),"@
}

/// The generated address arms of one model's fields, in the given order.
pub open spec fn addr_fields_text(fs: Seq<FieldEntryV>) -> Seq<char>
    decreases fs.len(),
{
    if fs.len() == 0 {
        Seq::empty()
    } else {
        addr_fields_text(fs.drop_last()) + addr_record_text(fs.last().name, fs.last().data)
    }
}

/// The generated address match over one model's fields, gated to its
/// series.
pub open spec fn addr_model_text(series: Seq<char>, m: ModelEntryV) -> Seq<char> {
    "\n        #[cfg(feature = \""@ + series + "\")]"@ + "\n        Model::"@ + m.model
        + " => match name {"@ + addr_fields_text(sort_by_addr(m.fields))
        + "\n            _ => Err(ControlTableError::NoMatchingAddress { model, name }),"@
        + "\n        },"@
}

/// The generated address matches of one series' models.
pub open spec fn addr_series_models_text(series: Seq<char>, ms: Seq<ModelEntryV>) -> Seq<char>
    decreases ms.len(),
{
    if ms.len() == 0 {
        Seq::empty()
    } else {
        addr_series_models_text(series, ms.drop_last()) + addr_model_text(series, ms.last())
    }
}

/// The generated address matches of all models.
pub open spec fn addr_series_matches_text(ss: Seq<SeriesEntryV>) -> Seq<char>
    decreases ss.len(),
{
    if ss.len() == 0 {
        Seq::empty()
    } else {
        addr_series_matches_text(ss.drop_last()) + addr_series_models_text(
            ss.last().series,
            ss.last().models,
        )
    }
}

/// Renders the generated expression for a range value.
fn render_rv(v: &crate::records::RangeValue) -> (r: String)
    ensures
        r@ == rv_text(v@),
{
    let mut s = String::new();
    match v {
        crate::records::RangeValue::Integer(n) => {
            s.append("RangeValue::Integer(");
            let digits = render_i64(*n);
            let ds = string_from_chars(&digits);
            s.append(ds.as_str());
            s.append(")");
        },
        crate::records::RangeValue::Symbolic { field_name, negated } => {
            s.append("RangeValue::Symbolic { field_name: DataName::");
            s.append(field_name.as_str());
            s.append(", negated: ");
            if *negated {
                s.append("true");
            } else {
                s.append("false");
            }
            s.append(" }");
        },
    }
    proof {
        assert(s@ =~= rv_text(v@));
    }
    s
}

/// Renders one generated field match arm.
#[verifier::rlimit(80)]
fn render_record(name: &str, d: &ControlTableData) -> (r: String)
    ensures
        r@ == record_text(name@, d@),
{
    let mut s = String::new();
    s.append("\n            DataName::");
    s.append(name);
    s.append(" => Ok(ControlTableData {");
    s.append("\n                address: ");
    let addr = render_u64(d.address as u64);
    let addr_s = string_from_chars(&addr);
    s.append(addr_s.as_str());
    s.append(",");
    s.append("\n                size: ");
    let size = render_u64(d.size as u64);
    let size_s = string_from_chars(&size);
    s.append(size_s.as_str());
    s.append(",");
    s.append("\n                description: ");
    match &d.description {
        Some(t) => {
            s.append("Some(\"");
            let esc = escape_text(t.as_str());
            s.append(esc.as_str());
            s.append("\")");
        },
        None => {
            s.append("None");
        },
    }
    s.append(",");
    s.append("\n                access: ");
    match d.access {
        AccessLevel::Read => s.append("AccessLevel::Read"),
        AccessLevel::Write => s.append("AccessLevel::Write"),
        AccessLevel::ReadWrite => s.append("AccessLevel::ReadWrite"),
    }
    s.append(",");
    s.append("\n                initial_value: ");
    match &d.initial_value {
        Some(v) => {
            s.append("Some(");
            let vs = render_rv(v);
            s.append(vs.as_str());
            s.append(")");
        },
        None => {
            s.append("None");
        },
    }
    s.append(",");
    s.append("\n                range: ");
    match &d.range {
        Some((lo, hi)) => {
            s.append("Some((");
            let los = render_rv(lo);
            s.append(los.as_str());
            s.append(", ");
            let his = render_rv(hi);
            s.append(his.as_str());
            s.append("))");
        },
        None => {
            s.append("None");
        },
    }
    s.append(",");
    s.append("\n            }),");
    proof {
        assert(s@ =~= record_text(name@, d@));
    }
    s
}

/// Renders the match arms of one model's fields, in the given order.
fn render_fields(fs: &Vec<FieldEntry>) -> (r: String)
    ensures
        r@ == fields_text(fs.deep_view()),
{
    let ghost fsv = fs.deep_view();
    let mut s = String::new();
    proof {
        assert(fsv.take(0) =~= Seq::<FieldEntryV>::empty());
    }
    let mut i: usize = 0;
    while i < fs.len()
        invariant
            i <= fs.len(),
            fsv == fs.deep_view(),
            fsv.len() == fs.len(),
            s@ == fields_text(fsv.take(i as int)),
        decreases fs.len() - i,
    {
        proof {
            assert(fsv.take(i as int + 1).drop_last() =~= fsv.take(i as int));
            assert(fsv.take(i as int + 1).last() == fsv[i as int]);
        }
        let arm = render_record(fs[i].name.as_str(), &fs[i].data);
        s.append(arm.as_str());
        i += 1;
    }
    proof {
        assert(fsv.take(fs.len() as int) =~= fsv);
    }
    s
}

/// Renders the generated match over one model's fields.
fn render_model(series: &str, m: &ModelEntry) -> (r: String)
    ensures
        r@ == model_text(series@, m@),
{
    let sorted = sort_fields(&m.fields);
    let arms = render_fields(&sorted);
    let mut s = String::new();
    s.append("\n        #[cfg(feature = \"");
    s.append(series);
    s.append("\")]");
    s.append("\n        Model::");
    s.append(m.model.as_str());
    s.append(" => match name {");
    s.append(arms.as_str());
    s.append("\n            _ => Err(ControlTableError::NoMatchingAddress { model, name }),");
    s.append("\n        },");
    proof {
        assert(s@ =~= model_text(series@, m@));
    }
    s
}

/// Renders the generated matches of all models.
fn render_series_matches(ss: &Vec<SeriesEntry>) -> (r: String)
    ensures
        r@ == series_matches_text(ss.deep_view()),
{
    let ghost ssv = ss.deep_view();
    let mut s = String::new();
    proof {
        assert(ssv.take(0) =~= Seq::<SeriesEntryV>::empty());
    }
    let mut i: usize = 0;
    while i < ss.len()
        invariant
            i <= ss.len(),
            ssv == ss.deep_view(),
            ssv.len() == ss.len(),
            s@ == series_matches_text(ssv.take(i as int)),
        decreases ss.len() - i,
    {
        proof {
            assert(ssv.take(i as int + 1).drop_last() =~= ssv.take(i as int));
            assert(ssv.take(i as int + 1).last() == ssv[i as int]);
        }
        let entry = &ss[i];
        let ghost mv = entry.models.deep_view();
        let mut t = String::new();
        proof {
            assert(mv.take(0) =~= Seq::<ModelEntryV>::empty());
        }
        let mut j: usize = 0;
        while j < entry.models.len()
            invariant
                j <= entry.models.len(),
                mv == entry.models.deep_view(),
                mv.len() == entry.models.len(),
                t@ == series_models_text(entry.series@, mv.take(j as int)),
            decreases entry.models.len() - j,
        {
            proof {
                assert(mv.take(j as int + 1).drop_last() =~= mv.take(j as int));
                assert(mv.take(j as int + 1).last() == mv[j as int]);
            }
            let one = render_model(entry.series.as_str(), &entry.models[j]);
            t.append(one.as_str());
            j += 1;
        }
        proof {
            assert(mv.take(entry.models.len() as int) =~= mv);
            assert(entry@ == ssv[i as int]);
        }
        s.append(t.as_str());
        i += 1;
    }
    proof {
        assert(ssv.take(ss.len() as int) =~= ssv);
    }
    s
}

/// Renders the generated model enum body.
fn render_model_enum(ss: &Vec<SeriesEntry>) -> (r: String)
    ensures
        r@ == model_enum_text(ss.deep_view()),
{
    let ghost ssv = ss.deep_view();
    let mut s = String::new();
    proof {
        assert(ssv.take(0) =~= Seq::<SeriesEntryV>::empty());
    }
    let mut i: usize = 0;
    while i < ss.len()
        invariant
            i <= ss.len(),
            ssv == ss.deep_view(),
            ssv.len() == ss.len(),
            s@ == model_enum_text(ssv.take(i as int)),
        decreases ss.len() - i,
    {
        proof {
            assert(ssv.take(i as int + 1).drop_last() =~= ssv.take(i as int));
            assert(ssv.take(i as int + 1).last() == ssv[i as int]);
        }
        let entry = &ss[i];
        let ghost mv = entry.models.deep_view();
        let mut t = String::new();
        proof {
            assert(mv.take(0) =~= Seq::<ModelEntryV>::empty());
        }
        let mut j: usize = 0;
        while j < entry.models.len()
            invariant
                j <= entry.models.len(),
                mv == entry.models.deep_view(),
                mv.len() == entry.models.len(),
                t@ == series_enum_text(entry.series@, mv.take(j as int)),
            decreases entry.models.len() - j,
        {
            proof {
                assert(mv.take(j as int + 1).drop_last() =~= mv.take(j as int));
                assert(mv.take(j as int + 1).last() == mv[j as int]);
            }
            t.append("    #[cfg(feature = \"");
            t.append(entry.series.as_str());
            t.append("\")]\n    ");
            t.append(entry.models[j].model.as_str());
            t.append(",\n");
            proof {
                assert(t@ =~= series_enum_text(entry.series@, mv.take(j as int + 1)));
            }
            j += 1;
        }
        proof {
            assert(mv.take(entry.models.len() as int) =~= mv);
            assert(entry@ == ssv[i as int]);
        }
        s.append(t.as_str());
        i += 1;
    }
    proof {
        assert(ssv.take(ss.len() as int) =~= ssv);
    }
    s
}

/// Renders the field names joined for the generated enumeration body.
fn render_names(ns: &Vec<String>) -> (r: String)
    ensures
        r@ == join_names(ns.deep_view()),
{
    let ghost nsv = ns.deep_view();
    let mut s = String::new();
    proof {
        assert(nsv.take(0) =~= Seq::<Seq<char>>::empty());
    }
    let mut i: usize = 0;
    while i < ns.len()
        invariant
            i <= ns.len(),
            nsv == ns.deep_view(),
            nsv.len() == ns.len(),
            s@ == join_names(nsv.take(i as int)),
        decreases ns.len() - i,
    {
        proof {
            assert(nsv.take(i as int + 1).drop_last() =~= nsv.take(i as int));
            assert(nsv.take(i as int + 1).last() == nsv[i as int]);
        }
        if i > 0 {
            s.append(",\n    ");
        }
        s.append(ns[i].as_str());
        proof {
            assert(s@ =~= join_names(nsv.take(i as int + 1)));
        }
        i += 1;
    }
    proof {
        assert(nsv.take(ns.len() as int) =~= nsv);
    }
    s
}

/// Renders the quoted series keys of the default feature list.
fn render_quoted(ss: &Vec<SeriesEntry>) -> (r: String)
    ensures
        r@ == join_quoted(series_keys(ss.deep_view())),
{
    let ghost ssv = ss.deep_view();
    let ghost ks = series_keys(ssv);
    let mut s = String::new();
    proof {
        assert(ks.take(0) =~= Seq::<Seq<char>>::empty());
    }
    let mut i: usize = 0;
    while i < ss.len()
        invariant
            i <= ss.len(),
            ssv == ss.deep_view(),
            ssv.len() == ss.len(),
            ks == series_keys(ssv),
            ks.len() == ss.len(),
            s@ == join_quoted(ks.take(i as int)),
        decreases ss.len() - i,
    {
        proof {
            assert(ks.take(i as int + 1).drop_last() =~= ks.take(i as int));
            assert(ks.take(i as int + 1).last() == ks[i as int]);
            assert(ks[i as int] == ssv[i as int].series);
        }
        if i > 0 {
            s.append(", \"");
        } else {
            s.append("\"");
        }
        s.append(ss[i].series.as_str());
        s.append("\"");
        proof {
            assert(s@ =~= join_quoted(ks.take(i as int + 1)));
        }
        i += 1;
    }
    proof {
        assert(ks.take(ss.len() as int) =~= ks);
    }
    s
}

/// Renders the per-series feature lines of the manifest.
fn render_cargo_lines(ss: &Vec<SeriesEntry>) -> (r: String)
    ensures
        r@ == cargo_lines_text(ss.deep_view()),
{
    let ghost ssv = ss.deep_view();
    let mut s = String::new();
    proof {
        assert(ssv.take(0) =~= Seq::<SeriesEntryV>::empty());
    }
    let mut i: usize = 0;
    while i < ss.len()
        invariant
            i <= ss.len(),
            ssv == ss.deep_view(),
            ssv.len() == ss.len(),
            s@ == cargo_lines_text(ssv.take(i as int)),
        decreases ss.len() - i,
    {
        proof {
            assert(ssv.take(i as int + 1).drop_last() =~= ssv.take(i as int));
            assert(ssv.take(i as int + 1).last() == ssv[i as int]);
        }
        s.append("\n");
        s.append(ss[i].series.as_str());
        s.append(" = []");
        proof {
            assert(s@ =~= cargo_lines_text(ssv.take(i as int + 1)));
        }
        i += 1;
    }
    proof {
        assert(ssv.take(ss.len() as int) =~= ssv);
    }
    s
}

/// The whole generated library source of the address-only mode: the
/// error declaration, the field-name enumeration, the series-gated model
/// enumeration, and a lookup from model and field to the address alone.
pub open spec fn address_lib_text(ss: Seq<SeriesEntryV>, ns: Seq<Seq<char>>) -> Seq<char> {
    err_def_text() + derives_text() + "\npub enum DataName {\n    "@ + join_names(ns)
        + ",\n}\n\n"@ + derives_text() + "\npub enum Model {\n"@ + model_enum_text(ss) + "}\n"@
        + "\npub fn address(model: Model, name: DataName) -> Result<u16, ControlTableError> {"@
        + "\n    match model {"@ + addr_series_matches_text(ss) + "\n    }"@ + "\n}\n"@
}

/// Renders the address match arms of one model's fields, in the given
/// order.
fn render_addr_fields(fs: &Vec<FieldEntry>) -> (r: String)
    ensures
        r@ == addr_fields_text(fs.deep_view()),
{
    let ghost fsv = fs.deep_view();
    let mut s = String::new();
    proof {
        assert(fsv.take(0) =~= Seq::<FieldEntryV>::empty());
    }
    let mut i: usize = 0;
    while i < fs.len()
        invariant
            i <= fs.len(),
            fsv == fs.deep_view(),
            fsv.len() == fs.len(),
            s@ == addr_fields_text(fsv.take(i as int)),
        decreases fs.len() - i,
    {
        proof {
            assert(fsv.take(i as int + 1).drop_last() =~= fsv.take(i as int));
            assert(fsv.take(i as int + 1).last() == fsv[i as int]);
        }
        s.append("\n            DataName::");
        s.append(fs[i].name.as_str());
        s.append(" => Ok(");
        let addr = render_u64(fs[i].data.address as u64);
        let addr_s = string_from_chars(&addr);
        s.append(addr_s.as_str());
        s.append("),");
        proof {
            assert(s@ =~= addr_fields_text(fsv.take(i as int + 1)));
        }
        i += 1;
    }
    proof {
        assert(fsv.take(fs.len() as int) =~= fsv);
    }
    s
}

/// Renders the generated address matches of all models.
fn render_addr_series_matches(ss: &Vec<SeriesEntry>) -> (r: String)
    ensures
        r@ == addr_series_matches_text(ss.deep_view()),
{
    let ghost ssv = ss.deep_view();
    let mut s = String::new();
    proof {
        assert(ssv.take(0) =~= Seq::<SeriesEntryV>::empty());
    }
    let mut i: usize = 0;
    while i < ss.len()
        invariant
            i <= ss.len(),
            ssv == ss.deep_view(),
            ssv.len() == ss.len(),
            s@ == addr_series_matches_text(ssv.take(i as int)),
        decreases ss.len() - i,
    {
        proof {
            assert(ssv.take(i as int + 1).drop_last() =~= ssv.take(i as int));
            assert(ssv.take(i as int + 1).last() == ssv[i as int]);
        }
        let entry = &ss[i];
        let ghost mv = entry.models.deep_view();
        let mut t = String::new();
        proof {
            assert(mv.take(0) =~= Seq::<ModelEntryV>::empty());
        }
        let mut j: usize = 0;
        while j < entry.models.len()
            invariant
                j <= entry.models.len(),
                mv == entry.models.deep_view(),
                mv.len() == entry.models.len(),
                t@ == addr_series_models_text(entry.series@, mv.take(j as int)),
            decreases entry.models.len() - j,
        {
            proof {
                assert(mv.take(j as int + 1).drop_last() =~= mv.take(j as int));
                assert(mv.take(j as int + 1).last() == mv[j as int]);
            }
            let m = &entry.models[j];
            let sorted = sort_fields(&m.fields);
            let arms = render_addr_fields(&sorted);
            t.append("\n        #[cfg(feature = \"");
            t.append(entry.series.as_str());
            t.append("\")]");
            t.append("\n        Model::");
            t.append(m.model.as_str());
            t.append(" => match name {");
            t.append(arms.as_str());
            t.append("\n            _ => Err(ControlTableError::NoMatchingAddress { model, name }),");
            t.append("\n        },");
            proof {
                assert(t@ =~= addr_series_models_text(entry.series@, mv.take(j as int + 1)));
            }
            j += 1;
        }
        proof {
            assert(mv.take(entry.models.len() as int) =~= mv);
            assert(entry@ == ssv[i as int]);
        }
        s.append(t.as_str());
        i += 1;
    }
    proof {
        assert(ssv.take(ss.len() as int) =~= ssv);
    }
    s
}

/// Aggregates the devices and emits the address-only library source and
/// its manifest: the same aggregation and enumerations as the
/// full-record mode, but the lookup returns just the address integer per
/// field.
pub fn create_address_lib(servos: &Vec<Actuator>) -> (r: Result<(String, String), GenError>)
    ensures
        match r {
            Ok(texts) => aggregate_spec(servos.deep_view()) matches Ok(ss) && texts.0@
                == address_lib_text(ss, all_names(servos.deep_view())) && texts.1@ == cargo_text(
                ss,
            ),
            Err(e) => aggregate_spec(servos.deep_view()) == Err::<Seq<SeriesEntryV>, GenErrorV>(
                e@,
            ),
        },
{
    let agg = match aggregate(servos) {
        Ok(a) => a,
        Err(e) => {
            return Err(e);
        },
    };
    let names = collect_names(servos);
    let mut lib = String::new();
    lib.append(
        "use thiserror::Error;\n\n#[derive(Error, Debug)]\npub enum ControlTableError {\n    #[error(\"Dynamixel model {model:?} does not support field {name:?}\")]\n    NoMatchingAddress { model: Model, name: DataName },\n}\n\n",
    );
    lib.append("#[derive(Clone, Copy, Debug)]");
    lib.append("\npub enum DataName {\n    ");
    let names_body = render_names(&names);
    lib.append(names_body.as_str());
    lib.append(",\n}\n\n");
    lib.append("#[derive(Clone, Copy, Debug)]");
    lib.append("\npub enum Model {\n");
    let enum_body = render_model_enum(&agg);
    lib.append(enum_body.as_str());
    lib.append("}\n");
    lib.append("\npub fn address(model: Model, name: DataName) -> Result<u16, ControlTableError> {");
    lib.append("\n    match model {");
    let matches_body = render_addr_series_matches(&agg);
    lib.append(matches_body.as_str());
    lib.append("\n    }");
    lib.append("\n}\n");
    let mut cargo = String::new();
    cargo.append(
        "[package]\nname = \"dxl-control-tables\"\nversion = \"0.1.0\"\nedition = \"2018\"\n\n[dependencies]\nthiserror = \"1.0.26\"\n\n[features]\n",
    );
    cargo.append("default = [");
    let quoted = render_quoted(&agg);
    cargo.append(quoted.as_str());
    cargo.append("]");
    let lines = render_cargo_lines(&agg);
    cargo.append(lines.as_str());
    cargo.append("\n");
    proof {
        assert(lib@ =~= address_lib_text(agg.deep_view(), names.deep_view()));
        assert(cargo@ =~= cargo_text(agg.deep_view()));
    }
    Ok((lib, cargo))
}

/// Aggregates the devices and emits the generated library source and its
/// manifest.
///
/// For identical device sequences the emitted texts are identical: both
/// are functions of the aggregate, whose three levels are kept in
/// lexicographic key order.
pub fn create_lib(servos: &Vec<Actuator>) -> (r: Result<(String, String), GenError>)
    ensures
        match r {
            Ok(texts) => aggregate_spec(servos.deep_view()) matches Ok(ss) && texts.0@ == lib_text(
                ss,
                all_names(servos.deep_view()),
            ) && texts.1@ == cargo_text(ss),
            Err(e) => aggregate_spec(servos.deep_view()) == Err::<Seq<SeriesEntryV>, GenErrorV>(
                e@,
            ),
        },
{
    let agg = match aggregate(servos) {
        Ok(a) => a,
        Err(e) => {
            return Err(e);
        },
    };
    let names = collect_names(servos);
    let mut lib = String::new();
    lib.append(
        "use thiserror::Error;\n\n#[derive(Error, Debug)]\npub enum ControlTableError {\n    #[error(\"Dynamixel model {model:?} does not support field {name:?}\")]\n    NoMatchingAddress { model: Model, name: DataName },\n}\n\n",
    );
    lib.append(
        "/// The levels of permission a user is granted in terms of an item in the\n/// control table.\n#[derive(Debug)]\npub enum AccessLevel {\n    Read,\n    Write,\n    ReadWrite,\n}\n\n/// An item that represents either the min, max, or initial value of a given\n/// address.\n#[derive(Debug)]\npub enum RangeValue {\n    Integer(i64),\n    Symbolic { field_name: DataName, negated: bool },\n}\n\n/// A representation of an item in the control table, where only information\n/// is stored. When applicable, items in the control table are represented in\n/// this format, along with any optional data such as range or description.\n#[derive(Debug)]\npub struct ControlTableData {\n    pub address: u16,\n    pub size: u8,\n    pub description: Option<&'static str>,\n    pub access: AccessLevel,\n    pub initial_value: Option<RangeValue>,\n    pub range: Option<(RangeValue, RangeValue)>,\n}\n\n",
    );
    lib.append("#[derive(Clone, Copy, Debug)]");
    lib.append("\npub enum DataName {\n    ");
    let names_body = render_names(&names);
    lib.append(names_body.as_str());
    lib.append(",\n}\n\n");
    lib.append("#[derive(Clone, Copy, Debug)]");
    lib.append("\npub enum Model {\n");
    let enum_body = render_model_enum(&agg);
    lib.append(enum_body.as_str());
    lib.append("}\n");
    lib.append(
        "\npub fn data(model: Model, name: DataName) -> Result<ControlTableData, ControlTableError> {",
    );
    lib.append("\n    match model {");
    let matches_body = render_series_matches(&agg);
    lib.append(matches_body.as_str());
    lib.append("\n    }");
    lib.append("\n}\n");
    let mut cargo = String::new();
    cargo.append(
        "[package]\nname = \"dxl-control-tables\"\nversion = \"0.1.0\"\nedition = \"2018\"\n\n[dependencies]\nthiserror = \"1.0.26\"\n\n[features]\n",
    );
    cargo.append("default = [");
    let quoted = render_quoted(&agg);
    cargo.append(quoted.as_str());
    cargo.append("]");
    let lines = render_cargo_lines(&agg);
    cargo.append(lines.as_str());
    cargo.append("\n");
    proof {
        assert(lib@ =~= lib_text(agg.deep_view(), names.deep_view()));
        assert(cargo@ =~= cargo_text(agg.deep_view()));
    }
    Ok((lib, cargo))
}

} // verus!
