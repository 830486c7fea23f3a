//! The typed record schema: access levels, range values and their token
//! grammar, and the normalized control-table record.

use vstd::prelude::*;
use vstd::string::*;
use crate::errors::NormalizeError;
use crate::text::{
    alpha_run, alpha_run_len, chars_of, dec_digits, dec_int, dec_value, digit_run, digit_run_len,
    drop_char, is_alpha_char, is_digit_char, lemma_dec_digits_value, lemma_dec_value_nonneg,
    lemma_digit_run_all, lemma_filter_all, parse_dec, render_i64, string_from_chars,
};

verus! {

/// The levels of permission a user is granted in terms of an item in the
/// control table.
#[derive(Clone, Copy, Debug, PartialEq, Eq, Structural)]
pub enum AccessLevel {
    Read,
    Write,
    ReadWrite,
}

/// A bound of a valid-value range: either a literal integer, or the value
/// of another named field, possibly negated.
#[derive(Clone, Debug)]
pub enum RangeValue {
    Integer(i64),
    Symbolic { field_name: String, negated: bool },
}

/// Mathematical model of a `RangeValue`.
pub ghost enum RangeValueV {
    Integer(int),
    Symbolic { field_name: Seq<char>, negated: bool },
}

impl View for RangeValue {
    type V = RangeValueV;

    open spec fn view(&self) -> RangeValueV {
        match self {
            RangeValue::Integer(n) => RangeValueV::Integer(*n as int),
            RangeValue::Symbolic { field_name, negated } => RangeValueV::Symbolic {
                field_name: field_name@,
                negated: *negated,
            },
        }
    }
}

/// `s` with every comma removed.
pub open spec fn strip_commas(s: Seq<char>) -> Seq<char> {
    s.filter(|c: char| c != ',')
}

/// 1 when the token carries a leading minus sign, else 0.
pub open spec fn token_base(s: Seq<char>) -> int {
    if s.len() > 0 && s[0] == '-' {
        1int
    } else {
        0int
    }
}

/// The token is an optionally signed, non-empty string of digits.
pub open spec fn is_int_token(s: Seq<char>) -> bool {
    token_base(s) < s.len() && digit_run_len(s, token_base(s)) == s.len() - token_base(s)
}

/// The integer an integer-shaped token denotes.
pub open spec fn int_token_value(s: Seq<char>) -> int {
    let m = dec_value(s.subrange(token_base(s), s.len() as int));
    if token_base(s) == 1 {
        -m
    } else {
        m
    }
}

/// Length of the letter part of a symbolic-shaped token.
pub open spec fn sym_letters_len(s: Seq<char>) -> nat {
    alpha_run_len(s, token_base(s))
}

/// The token is an optional minus sign, then letters, then optional
/// trailing digits.
pub open spec fn is_sym_token(s: Seq<char>) -> bool {
    sym_letters_len(s) >= 1 && digit_run_len(s, token_base(s) + sym_letters_len(s)) == s.len()
        - token_base(s) - sym_letters_len(s)
}

/// The referenced field's name in a symbolic-shaped token: the letter part.
pub open spec fn sym_field_name(s: Seq<char>) -> Seq<char> {
    s.subrange(token_base(s), token_base(s) + sym_letters_len(s))
}

/// No token is both integer-shaped and symbolic-shaped: an integer token
/// starts (after its sign) with a digit, a symbolic one with a letter.
pub proof fn lemma_token_shapes_disjoint(s: Seq<char>)
    ensures
        !(is_int_token(s) && is_sym_token(s)),
{
    if is_int_token(s) && is_sym_token(s) {
        let b = token_base(s);
        assert(alpha_run_len(s, b) >= 1);
        assert(is_alpha_char(s[b]));
        assert(digit_run_len(s, b) == s.len() - b);
        assert(s.len() - b >= 1);
        assert(digit_run_len(s, b) == 0);
    }
}

impl RangeValue {
    /// Parses a range-value token. After commas are stripped, the token
    /// must match exactly one of the two shapes: an optionally signed
    /// integer, or a name with optional leading minus and optional
    /// trailing digits. The digits of a symbolic token are dropped; its
    /// sign is recorded as `negated`.
    pub fn new(text: &str) -> (r: Result<RangeValue, NormalizeError>)
        ensures
            ({
                let f = strip_commas(text@);
                &&& (is_int_token(f) ==> (if i64::MIN <= int_token_value(f) <= i64::MAX {
                    r matches Ok(v) && v@ == RangeValueV::Integer(int_token_value(f))
                } else {
                    r matches Err(e) && e is UnrecognizedRangeToken
                }))
                &&& (is_sym_token(f) ==> (r matches Ok(v) && v@ == (RangeValueV::Symbolic {
                    field_name: sym_field_name(f),
                    negated: token_base(f) == 1,
                })))
                &&& (!is_int_token(f) && !is_sym_token(f) ==> (r matches Err(e)
                    && e is UnrecognizedRangeToken))
                &&& (r matches Err(e) ==> e matches NormalizeError::UnrecognizedRangeToken {
                    token,
                } && token@ == text@)
            }),
    {
        let cs = chars_of(text);
        let f = drop_char(&cs, ',');
        let ghost fv = strip_commas(text@);
        proof {
            assert(f@ == fv);
        }
        let neg = f.len() > 0 && f[0] == '-';
        let base: usize = if neg {
            1
        } else {
            0
        };
        proof {
            assert(base as int == token_base(fv));
        }
        let letters = alpha_run(&f, base);
        proof {
            assert(letters@.len() == alpha_run_len(f@, base as int));
            assert(base + letters@.len() <= f@.len());
        }
        if letters.len() > 0 {
            let digits = digit_run(&f, base + letters.len());
            proof {
                assert(sym_letters_len(fv) == letters@.len());
                assert(digit_run_len(fv, base + letters@.len()) == digits@.len());
                // an integer token cannot start with a letter
                assert(is_alpha_char(fv[base as int]));
                assert(digit_run_len(fv, base as int) == 0);
            }
            if base + letters.len() + digits.len() == f.len() {
                let field_name = string_from_chars(&letters);
                proof {
                    assert(letters@ == sym_field_name(fv));
                }
                Ok(RangeValue::Symbolic { field_name, negated: neg })
            } else {
                proof {
                    assert(!is_sym_token(fv));
                    assert(!is_int_token(fv));
                }
                Err(NormalizeError::UnrecognizedRangeToken { token: text.to_owned() })
            }
        } else {
            let digits = digit_run(&f, base);
            proof {
                assert(sym_letters_len(fv) == 0);
                assert(!is_sym_token(fv));
                assert(digit_run_len(fv, base as int) == digits@.len());
            }
            if digits.len() > 0 && base + digits.len() == f.len() {
                proof {
                    assert(is_int_token(fv));
                    assert(digits@ == fv.subrange(base as int, fv.len() as int));
                }
                match parse_dec(&digits) {
                    Some(m) => {
                        proof {
                            assert(m as int == dec_value(digits@));
                        }
                        if neg {
                            if m > 9223372036854775808u64 {
                                proof {
                                    assert(int_token_value(fv) < i64::MIN);
                                }
                                Err(NormalizeError::UnrecognizedRangeToken {
                                    token: text.to_owned(),
                                })
                            } else if m == 9223372036854775808u64 {
                                proof {
                                    assert(int_token_value(fv) == i64::MIN);
                                }
                                Ok(RangeValue::Integer(i64::MIN))
                            } else {
                                proof {
                                    assert(int_token_value(fv) == -(m as int));
                                }
                                Ok(RangeValue::Integer(-(m as i64)))
                            }
                        } else {
                            if m > 9223372036854775807u64 {
                                proof {
                                    assert(int_token_value(fv) > i64::MAX);
                                }
                                Err(NormalizeError::UnrecognizedRangeToken {
                                    token: text.to_owned(),
                                })
                            } else {
                                Ok(RangeValue::Integer(m as i64))
                            }
                        }
                    },
                    None => {
                        proof {
                            lemma_dec_value_nonneg(digits@);
                            assert(dec_value(digits@) > u64::MAX);
                            assert(int_token_value(fv) > i64::MAX || int_token_value(fv)
                                < i64::MIN);
                        }
                        Err(NormalizeError::UnrecognizedRangeToken { token: text.to_owned() })
                    },
                }
            } else {
                proof {
                    assert(!is_int_token(fv));
                }
                Err(NormalizeError::UnrecognizedRangeToken { token: text.to_owned() })
            }
        }
    }

    /// The token a range value denotes: the decimal rendering of an
    /// integer, or the (possibly negated) field name.
    pub fn render(&self) -> (r: String)
        ensures
            r@ == spec_render(self@),
    {
        match self {
            RangeValue::Integer(n) => {
                let cs = render_i64(*n);
                string_from_chars(&cs)
            },
            RangeValue::Symbolic { field_name, negated } => {
                let mut cs: Vec<char> = Vec::new();
                if *negated {
                    cs.push('-');
                }
                let name_cs = chars_of(field_name.as_str());
                let mut i: usize = 0;
                while i < name_cs.len()
                    invariant
                        i <= name_cs.len(),
                        name_cs@ == field_name@,
                        cs@ =~= (if *negated {
                            seq!['-']
                        } else {
                            Seq::<char>::empty()
                        }) + field_name@.take(i as int),
                    decreases name_cs.len() - i,
                {
                    cs.push(name_cs[i]);
                    i += 1;
                }
                proof {
                    assert(field_name@.take(field_name@.len() as int) =~= field_name@);
                    assert(cs@ =~= spec_render(self@));
                }
                string_from_chars(&cs)
            },
        }
    }
}

/// The token a range value denotes.
pub open spec fn spec_render(v: RangeValueV) -> Seq<char> {
    match v {
        RangeValueV::Integer(n) => dec_int(n),
        RangeValueV::Symbolic { field_name, negated } => if negated {
            seq!['-'] + field_name
        } else {
            field_name
        },
    }
}

/// Rendering an integer bound and parsing the text back yields the same
/// integer: the rendering is an integer-shaped token denoting `n`.
pub proof fn lemma_integer_render_parse(n: int)
    requires
        i64::MIN <= n <= i64::MAX,
    ensures
        strip_commas(dec_int(n)) == dec_int(n),
        is_int_token(dec_int(n)),
        int_token_value(dec_int(n)) == n,
{
    let s = dec_int(n);
    if n < 0 {
        let d = dec_digits((-n) as nat);
        lemma_dec_digits_value((-n) as nat);
        assert(s == seq!['-'] + d);
        assert(s[0] == '-');
        assert(token_base(s) == 1);
        assert(forall|j: int| 1 <= j < s.len() ==> s[j] == d[j - 1]);
        assert(forall|j: int| 1 <= j < s.len() ==> is_digit_char(#[trigger] s[j]));
        lemma_digit_run_all(s, 1);
        assert(is_int_token(s));
        assert(s.subrange(1, s.len() as int) =~= d);
        assert(int_token_value(s) == -dec_value(d));
        assert(forall|i: int| 0 <= i < s.len() ==> #[trigger] s[i] != ',') by {
            assert(forall|j: int| 0 <= j < d.len() ==> is_digit_char(#[trigger] d[j]));
        }
        lemma_filter_all(s, |c: char| c != ',');
    } else {
        lemma_dec_digits_value(n as nat);
        assert(s == dec_digits(n as nat));
        assert(forall|j: int| 0 <= j < s.len() ==> is_digit_char(#[trigger] s[j]));
        assert(s[0] != '-');
        assert(token_base(s) == 0);
        lemma_digit_run_all(s, 0);
        assert(s.subrange(0, s.len() as int) =~= s);
        lemma_filter_all(s, |c: char| c != ',');
    }
}

/// A representation of an item in the control table, where only
/// information is stored: the address and byte size, with any optional
/// data such as name, description, access level, initial value and range.
#[derive(Clone, Debug)]
pub struct ControlTableData {
    pub address: u16,
    pub size: u8,
    pub data_name: Option<String>,
    pub description: Option<String>,
    pub access: AccessLevel,
    pub initial_value: Option<RangeValue>,
    pub range: Option<(RangeValue, RangeValue)>,
    pub units: Option<String>,
}

/// Mathematical model of a `ControlTableData`.
pub ghost struct ControlTableDataV {
    pub address: u16,
    pub size: u8,
    pub data_name: Option<Seq<char>>,
    pub description: Option<Seq<char>>,
    pub access: AccessLevel,
    pub initial_value: Option<RangeValueV>,
    pub range: Option<(RangeValueV, RangeValueV)>,
    pub units: Option<Seq<char>>,
}

impl View for ControlTableData {
    type V = ControlTableDataV;

    open spec fn view(&self) -> ControlTableDataV {
        ControlTableDataV {
            address: self.address,
            size: self.size,
            data_name: match self.data_name {
                Some(ref s) => Some(s@),
                None => None,
            },
            description: match self.description {
                Some(ref s) => Some(s@),
                None => None,
            },
            access: self.access,
            initial_value: match self.initial_value {
                Some(ref v) => Some(v@),
                None => None,
            },
            range: match self.range {
                Some((ref lo, ref hi)) => Some((lo@, hi@)),
                None => None,
            },
            units: match self.units {
                Some(ref s) => Some(s@),
                None => None,
            },
        }
    }
}

impl RangeValue {
    /// A value-equal copy.
    pub fn duplicate(&self) -> (r: RangeValue)
        ensures
            r@ == self@,
    {
        match self {
            RangeValue::Integer(n) => RangeValue::Integer(*n),
            RangeValue::Symbolic { field_name, negated } => RangeValue::Symbolic {
                field_name: field_name.clone(),
                negated: *negated,
            },
        }
    }
}

/// A view-equal copy of an optional text.
fn duplicate_opt_string(s: &Option<String>) -> (r: Option<String>)
    ensures
        match s {
            Some(x) => r matches Some(y) && y@ == x@,
            None => r is None,
        },
{
    match s {
        Some(x) => Some(x.clone()),
        None => None,
    }
}

impl ControlTableData {
    /// A value-equal copy.
    pub fn duplicate(&self) -> (r: ControlTableData)
        ensures
            r@ == self@,
    {
        ControlTableData {
            address: self.address,
            size: self.size,
            data_name: duplicate_opt_string(&self.data_name),
            description: duplicate_opt_string(&self.description),
            access: self.access,
            initial_value: match &self.initial_value {
                Some(v) => Some(v.duplicate()),
                None => None,
            },
            range: match &self.range {
                Some((lo, hi)) => Some((lo.duplicate(), hi.duplicate())),
                None => None,
            },
            units: duplicate_opt_string(&self.units),
        }
    }
}

impl DeepView for ControlTableData {
    type V = ControlTableDataV;

    open spec fn deep_view(&self) -> ControlTableDataV {
        self.view()
    }
}

} // verus!
