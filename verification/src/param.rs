//! The model parameter file: thirteen values, each on the line after its
//! comment line, read into plain values and written back.

use crate::text::{
    all_real, is_real_text, lemma_decimal_real, real_text,
    chars_of, decimal, decimal_text, is_digit, join_with, lemma_decimal_digits,
    lemma_parse_decimal_usize, lemma_split_joined, lemma_text_lines_crlf, lemma_views_push,
    parse_usize, parse_usize_text, split_chars, split_lines, split_on, string_from_chars,
    string_views, strings_of, text_lines, views,
};
use crate::util::{push_char, utf8_string};
use vstd::prelude::*;
use vstd::utf8::{
    decode_utf8, encode_utf8, encode_utf8_decode_utf8, encode_utf8_valid_utf8, valid_utf8,
};

verus! {

/// Why a parameter file could not be read.
#[derive(Debug, Clone, Copy, PartialEq, Eq, Structural)]
pub enum ParamError {
    /// The file is not UTF-8.
    InvalidUtf8,
    /// The file has fewer than 26 lines.
    MissingLine,
    /// A value line has fewer comma-separated values than it needs.
    MissingField,
    /// A value on a line of unsigned integers is not one.
    BadInteger,
    /// A value on the timing line is not a real number.
    BadReal,
}

/// The values of a parameter file as read, with the timing line still as text,
/// since its values are real numbers.
pub struct ParameterRecord {
    pub diff_order: usize,
    pub pml_h: usize,
    /// The comma-separated values of the timing line: the sampling interval, the
    /// number of samples, the dominant frequency and the delay, then any more.
    pub timing: Vec<String>,
    pub source_x: usize,
    pub source_z: usize,
    pub receiver_z: usize,
    pub source_type: usize,
    pub vp_grd: String,
    pub vs_grd: String,
    pub pp_grd: String,
    pub wavelet_bln: String,
    pub cdp_x2: String,
    pub cdp_z2: String,
    pub wave_field_x: String,
    pub wave_field_z: String,
    pub self_start: usize,
    pub self_end: usize,
}

/// The comma-separated values of `t` when each one is an unsigned integer.
pub open spec fn usize_fields(t: Seq<char>) -> Option<Seq<usize>> {
    let pieces = split_on(t, ',');
    if forall|i: int| 0 <= i < pieces.len() ==> (#[trigger] parse_usize_text(pieces[i])) is Some {
        Some(pieces.map_values(|p: Seq<char>| parse_usize_text(p)->Some_0))
    } else {
        None
    }
}

/// Why the line `t` does not hold at least `need` comma-separated unsigned integers.
pub open spec fn count_error(t: Seq<char>, need: nat) -> Option<ParamError> {
    match usize_fields(t) {
        None => Some(ParamError::BadInteger),
        Some(v) => if v.len() < need {
            Some(ParamError::MissingField)
        } else {
            None
        },
    }
}

/// Why the text `s` is no parameter file, or `None` when it is one.
pub open spec fn parameter_error(s: Seq<char>) -> Option<ParamError> {
    let ls = text_lines(s);
    if ls.len() < 26 {
        Some(ParamError::MissingLine)
    } else if count_error(ls[1], 2) is Some {
        count_error(ls[1], 2)
    } else if !all_real(split_on(ls[3], ',')) {
        Some(ParamError::BadReal)
    } else if split_on(ls[3], ',').len() < 4 {
        Some(ParamError::MissingField)
    } else if count_error(ls[5], 3) is Some {
        count_error(ls[5], 3)
    } else if count_error(ls[7], 1) is Some {
        count_error(ls[7], 1)
    } else if count_error(ls[25], 2) is Some {
        count_error(ls[25], 2)
    } else {
        None
    }
}

/// `p` holds what the parameter file `s` gives: the values on lines 1, 3, 5 and 7,
/// the file names on lines 9 to 23, every other line, and the values on line 25.
pub open spec fn parameter_record_holds(p: ParameterRecord, s: Seq<char>) -> bool {
    let ls = text_lines(s);
    &&& p.diff_order == usize_fields(ls[1])->Some_0[0]
    &&& p.pml_h == usize_fields(ls[1])->Some_0[1]
    &&& string_views(p.timing@) == split_on(ls[3], ',')
    &&& p.source_x == usize_fields(ls[5])->Some_0[0]
    &&& p.source_z == usize_fields(ls[5])->Some_0[1]
    &&& p.receiver_z == usize_fields(ls[5])->Some_0[2]
    &&& p.source_type == usize_fields(ls[7])->Some_0[0]
    &&& p.vp_grd@ == ls[9]
    &&& p.vs_grd@ == ls[11]
    &&& p.pp_grd@ == ls[13]
    &&& p.wavelet_bln@ == ls[15]
    &&& p.cdp_x2@ == ls[17]
    &&& p.cdp_z2@ == ls[19]
    &&& p.wave_field_x@ == ls[21]
    &&& p.wave_field_z@ == ls[23]
    &&& p.self_start == usize_fields(ls[25])->Some_0[0]
    &&& p.self_end == usize_fields(ls[25])->Some_0[1]
}

/// The comma-separated values of `t`, when each one is an unsigned integer.
pub fn usize_list(t: &Vec<char>) -> (r: Option<Vec<usize>>)
    ensures
        match usize_fields(t@) {
            None => r is None,
            Some(v) => r matches Some(x) && x@ == v,
        },
{
    let pieces = split_chars(t, ',');
    let ghost ps = split_on(t@, ',');
    let mut out: Vec<usize> = Vec::new();
    let mut i: usize = 0;
    while i < pieces.len()
        invariant
            i <= pieces.len(),
            views(pieces@) == ps,
            ps == split_on(t@, ','),
            out@.len() == i,
            forall|k: int| 0 <= k < i ==> (#[trigger] parse_usize_text(ps[k])) is Some,
            forall|k: int| 0 <= k < i ==> out@[k] == parse_usize_text(ps[k])->Some_0,
        decreases pieces.len() - i,
    {
        assert(ps[i as int] == pieces@[i as int]@);
        match parse_usize(&pieces[i]) {
            Some(v) => out.push(v),
            None => return None,
        }
        i = i + 1;
    }
    assert(out@ == ps.map_values(|p: Seq<char>| parse_usize_text(p)->Some_0));
    Some(out)
}

/// Reads the text of a parameter file. Line 1 holds the difference order and the
/// absorbing boundary width, line 3 the timing values, line 5 the source and
/// receiver node indices, line 7 the source type, lines 9 to 23 the file names,
/// and line 25 the first and last self-excited position.
#[verifier::loop_isolation(false)]
pub fn from_parameter_text(text: &str) -> (r: Result<ParameterRecord, ParamError>)
    ensures
        match parameter_error(text@) {
            Some(e) => r == Err::<ParameterRecord, ParamError>(e),
            None => r matches Ok(p) && parameter_record_holds(p, text@),
        },
{
    let cs = chars_of(text);
    let lines = split_lines(&cs);
    let ghost ls = text_lines(text@);
    if lines.len() < 26 {
        return Err(ParamError::MissingLine);
    }
    assert forall|k: int| 0 <= k < 26 implies lines@[k]@ == ls[k] by {
        assert(views(lines@)[k] == lines@[k]@);
    }
    let v1 = match usize_list(&lines[1]) {
        Some(v) => v,
        None => return Err(ParamError::BadInteger),
    };
    if v1.len() < 2 {
        return Err(ParamError::MissingField);
    }
    let timing_pieces = split_chars(&lines[3], ',');
    let mut q: usize = 0;
    while q < timing_pieces.len()
        invariant
            q <= timing_pieces.len(),
            views(timing_pieces@) == split_on(ls[3], ','),
            forall|k: int| 0 <= k < q ==> real_text(#[trigger] split_on(ls[3], ',')[k]),
        decreases timing_pieces.len() - q,
    {
        assert(split_on(ls[3], ',')[q as int] == timing_pieces@[q as int]@);
        if !is_real_text(&timing_pieces[q]) {
            return Err(ParamError::BadReal);
        }
        q = q + 1;
    }
    if timing_pieces.len() < 4 {
        return Err(ParamError::MissingField);
    }
    let timing = strings_of(&timing_pieces);
    let v5 = match usize_list(&lines[5]) {
        Some(v) => v,
        None => return Err(ParamError::BadInteger),
    };
    if v5.len() < 3 {
        return Err(ParamError::MissingField);
    }
    let v7 = match usize_list(&lines[7]) {
        Some(v) => v,
        None => return Err(ParamError::BadInteger),
    };
    if v7.len() < 1 {
        return Err(ParamError::MissingField);
    }
    let v25 = match usize_list(&lines[25]) {
        Some(v) => v,
        None => return Err(ParamError::BadInteger),
    };
    if v25.len() < 2 {
        return Err(ParamError::MissingField);
    }
    let p = ParameterRecord {
        diff_order: v1[0],
        pml_h: v1[1],
        timing,
        source_x: v5[0],
        source_z: v5[1],
        receiver_z: v5[2],
        source_type: v7[0],
        vp_grd: string_from_chars(&lines[9]),
        vs_grd: string_from_chars(&lines[11]),
        pp_grd: string_from_chars(&lines[13]),
        wavelet_bln: string_from_chars(&lines[15]),
        cdp_x2: string_from_chars(&lines[17]),
        cdp_z2: string_from_chars(&lines[19]),
        wave_field_x: string_from_chars(&lines[21]),
        wave_field_z: string_from_chars(&lines[23]),
        self_start: v25[0],
        self_end: v25[1],
    };
    Ok(p)
}

/// Reads the bytes of a parameter file, which must be UTF-8.
pub fn from_parameter_bytes(bytes: Vec<u8>) -> (r: Result<ParameterRecord, ParamError>)
    ensures
        !valid_utf8(bytes@) ==> r == Err::<ParameterRecord, ParamError>(ParamError::InvalidUtf8),
        valid_utf8(bytes@) ==> match parameter_error(decode_utf8(bytes@)) {
            Some(e) => r == Err::<ParameterRecord, ParamError>(e),
            None => r matches Ok(p) && parameter_record_holds(p, decode_utf8(bytes@)),
        },
{
    match utf8_string(bytes) {
        None => Err(ParamError::InvalidUtf8),
        Some(s) => from_parameter_text(s.as_str()),
    }
}

/// The strings `parts` with `sep` between neighbours.
pub fn joined(parts: &Vec<String>, sep: char) -> (s: String)
    ensures
        s@ == join_with(string_views(parts@), sep),
{
    let mut s = String::new();
    let mut i: usize = 0;
    while i < parts.len()
        invariant
            i <= parts.len(),
            s@ == join_with(string_views(parts@).take(i as int), sep),
        decreases parts.len() - i,
    {
        let ghost ps = string_views(parts@);
        assert(ps.take(i + 1).drop_last() == ps.take(i as int));
        assert(ps.take(i + 1).last() == parts@[i as int]@);
        if i > 0 {
            push_char(&mut s, sep);
        } else {
            assert(ps.take(1) == seq![ps[0]]);
        }
        s.append(parts[i].as_str());
        i = i + 1;
    }
    assert(string_views(parts@).take(i as int) == string_views(parts@));
    s
}

/// The parameters of a model. A real-valued parameter is held as the decimal
/// text that `{}` writes for its `f64` value.
pub struct ModelPara {
    /// The order of the finite differences.
    pub diff_order: usize,
    /// The width of the absorbing boundary, in grid nodes.
    pub pml_h: usize,
    /// The sampling interval.
    pub dt: String,
    /// The number of samples.
    pub points: usize,
    /// The dominant frequency of the source.
    pub fm: String,
    /// The delay of the source wavelet.
    pub delay: String,
    /// The node indices of the source, in x and in z.
    pub source_x: usize,
    pub source_z: usize,
    /// The node index of the receivers in z.
    pub receiver_z: usize,
    /// 1 for an explosive source, 2 for a vertical one, 3 for a horizontal one.
    pub source_type: usize,
    pub vp_grd: String,
    pub vs_grd: String,
    pub pp_grd: String,
    pub wavelet_bln: String,
    pub cdp_x2: String,
    pub cdp_z2: String,
    pub wave_field_x: String,
    pub wave_field_z: String,
    /// The first and the last position of the self-excited, self-received records.
    pub self_start: usize,
    pub self_end: usize,
}

/// The value lines of a parameter file for `m`, in order.
pub open spec fn value_lines(m: ModelPara) -> Seq<Seq<char>> {
    seq![
        join_with(seq![decimal(m.diff_order as nat), decimal(m.pml_h as nat)], ','),
        join_with(seq![m.dt@, decimal(m.points as nat), m.fm@, m.delay@], ','),
        join_with(
            seq![decimal(m.source_x as nat), decimal(m.source_z as nat), decimal(m.receiver_z as nat)],
            ',',
        ),
        decimal(m.source_type as nat),
        m.vp_grd@,
        m.vs_grd@,
        m.pp_grd@,
        m.wavelet_bln@,
        m.cdp_x2@,
        m.cdp_z2@,
        m.wave_field_x@,
        m.wave_field_z@,
        join_with(seq![decimal(m.self_start as nat), decimal(m.self_end as nat)], ','),
    ]
}

/// The comment lines of a parameter file, one before each value line.
pub open spec fn template_lines() -> Seq<Seq<char>> {
    seq![
        "!差分阶数，吸收边界厚度"@,
        "!采样间隔，采样点数，震源子波主频，震源子波延迟时"@,
        "!震源所在X、Z方向节点序号，检波点所在Z方向节点序号"@,
        "!点震源的类型：1胀缩震源，2垂直震源，3水平震源"@,
        "!模型的纵波速度"@,
        "!模型的横波速度"@,
        "!模型的密度"@,
        "!保存震源子波的文件名"@,
        "!保存共炮点记录水平分量的文件名"@,
        "!保存共炮点记录垂直分量的文件名"@,
        "!保存波场水平分量的文件名"@,
        "!保存波场垂直分量的文件名"@,
        "!自激自收区域的起点、终点位置"@,
    ]
}

/// A line end as the parameter file writes it.
pub open spec fn crlf() -> Seq<char> {
    seq!['\r', '\n']
}

/// Each line of `t` followed by the line of `v` at the same place, every line
/// ended with `"\r\n"`.
pub open spec fn interleave_lines(t: Seq<Seq<char>>, v: Seq<Seq<char>>) -> Seq<char>
    decreases t.len(),
{
    if t.len() == 0 || v.len() == 0 {
        seq![]
    } else {
        t[0] + crlf() + v[0] + crlf() + interleave_lines(t.drop_first(), v.drop_first())
    }
}

/// The text of the parameter file for `m`.
pub open spec fn parameter_file(m: ModelPara) -> Seq<char> {
    interleave_lines(template_lines(), value_lines(m))
}

proof fn lemma_interleave_push(t: Seq<Seq<char>>, v: Seq<Seq<char>>, a: Seq<char>, b: Seq<char>)
    requires
        t.len() == v.len(),
    ensures
        interleave_lines(t.push(a), v.push(b)) == interleave_lines(t, v) + a + crlf() + b
            + crlf(),
    decreases t.len(),
{
    if t.len() == 0 {
        assert(t.push(a).drop_first() == Seq::<Seq<char>>::empty());
        assert(v.push(b).drop_first() == Seq::<Seq<char>>::empty());
        assert(t.push(a)[0] == a);
        assert(v.push(b)[0] == b);
        assert(interleave_lines(Seq::<Seq<char>>::empty(), Seq::<Seq<char>>::empty())
            == Seq::<char>::empty());
        assert(interleave_lines(t.push(a), v.push(b)) =~= a + crlf() + b + crlf() + seq![]);
        assert(interleave_lines(t, v) == Seq::<char>::empty());
        assert(interleave_lines(t, v) + a + crlf() + b + crlf() =~= a + crlf() + b + crlf()
            + seq![]);
    } else {
        assert(t.push(a).drop_first() == t.drop_first().push(a));
        assert(v.push(b).drop_first() == v.drop_first().push(b));
        lemma_interleave_push(t.drop_first(), v.drop_first(), a, b);
        let rest = interleave_lines(t.drop_first(), v.drop_first());
        assert(t[0] + crlf() + v[0] + crlf() + (rest + a + crlf() + b + crlf()) =~= (t[0] + crlf()
            + v[0] + crlf() + rest) + a + crlf() + b + crlf());
    }
}

impl ModelPara {
    /// The value lines of the parameter file, in order.
    pub fn to_str_vec(&self) -> (v: Vec<String>)
        ensures
            string_views(v@) == value_lines(*self),
    {
        let mut v: Vec<String> = Vec::new();
        let l0 = vec![decimal_text(self.diff_order), decimal_text(self.pml_h)];
        v.push(joined(&l0, ','));
        let l1 = vec![
            self.dt.clone(),
            decimal_text(self.points),
            self.fm.clone(),
            self.delay.clone(),
        ];
        v.push(joined(&l1, ','));
        let l2 = vec![
            decimal_text(self.source_x),
            decimal_text(self.source_z),
            decimal_text(self.receiver_z),
        ];
        v.push(joined(&l2, ','));
        v.push(decimal_text(self.source_type));
        v.push(self.vp_grd.clone());
        v.push(self.vs_grd.clone());
        v.push(self.pp_grd.clone());
        v.push(self.wavelet_bln.clone());
        v.push(self.cdp_x2.clone());
        v.push(self.cdp_z2.clone());
        v.push(self.wave_field_x.clone());
        v.push(self.wave_field_z.clone());
        let l12 = vec![decimal_text(self.self_start), decimal_text(self.self_end)];
        v.push(joined(&l12, ','));
        assert(string_views(l0@) =~= seq![decimal(self.diff_order as nat), decimal(self.pml_h as nat)]);
        assert(string_views(l1@) =~= seq![self.dt@, decimal(self.points as nat), self.fm@, self.delay@]);
        assert(string_views(l2@) =~= seq![decimal(self.source_x as nat), decimal(self.source_z as nat), decimal(self.receiver_z as nat)]);
        assert(string_views(l12@) =~= seq![decimal(self.self_start as nat), decimal(self.self_end as nat)]);
        assert(string_views(v@) =~= value_lines(*self));
        v
    }

    /// The text that a parameter file for these parameters holds: each comment
    /// line and then the value line, each ended with `"\r\n"`.
    pub fn parameter_file_text(&self) -> (s: String)
        ensures
            s@ == parameter_file(*self),
    {
        let model_template: Vec<&str> = vec![
            "!差分阶数，吸收边界厚度",
            "!采样间隔，采样点数，震源子波主频，震源子波延迟时",
            "!震源所在X、Z方向节点序号，检波点所在Z方向节点序号",
            "!点震源的类型：1胀缩震源，2垂直震源，3水平震源",
            "!模型的纵波速度",
            "!模型的横波速度",
            "!模型的密度",
            "!保存震源子波的文件名",
            "!保存共炮点记录水平分量的文件名",
            "!保存共炮点记录垂直分量的文件名",
            "!保存波场水平分量的文件名",
            "!保存波场垂直分量的文件名",
            "!自激自收区域的起点、终点位置",
        ];
        let model_values = self.to_str_vec();
        let ghost tl = template_lines();
        let ghost vl = value_lines(*self);
        assert(tl.len() == 13 && vl.len() == 13);
        assert forall|k: int| 0 <= k < 13 implies model_template@[k]@ == tl[k] by {}
        let mut s = String::new();
        let mut i: usize = 0;
        assert(tl.take(0) == Seq::<Seq<char>>::empty());
        assert(vl.take(0) == Seq::<Seq<char>>::empty());
        while i < 13
            invariant
                i <= 13,
                model_template@.len() == 13,
                model_values@.len() == 13,
                tl == template_lines(),
                vl == value_lines(*self),
                forall|k: int| 0 <= k < 13 ==> model_template@[k]@ == tl[k],
                string_views(model_values@) == vl,
                s@ == interleave_lines(tl.take(i as int), vl.take(i as int)),
            decreases 13 - i,
        {
            proof {
                assert(model_values@[i as int]@ == vl[i as int]);
                assert(tl.take(i + 1) == tl.take(i as int).push(tl[i as int]));
                assert(vl.take(i + 1) == vl.take(i as int).push(vl[i as int]));
                lemma_interleave_push(tl.take(i as int), vl.take(i as int), tl[i as int], vl[i as int]);
            }
            s.append(model_template[i]);
            push_char(&mut s, '\r');
            push_char(&mut s, '\n');
            s.append(model_values[i].as_str());
            push_char(&mut s, '\r');
            push_char(&mut s, '\n');
            assert(s@ =~= interleave_lines(tl.take(i as int), vl.take(i as int)) + tl[i as int]
                + crlf() + vl[i as int] + crlf());
            i = i + 1;
        }
        assert(tl.take(13) == tl);
        assert(vl.take(13) == vl);
        s
    }
}

/// No comment line of a parameter file holds a line break.
proof fn lemma_template_single_lines()
    ensures
        template_lines().len() == 13,
        forall|k: int|
            0 <= k < template_lines().len() ==> !(#[trigger] template_lines()[k]).contains('\n'),
{
    reveal_strlit("!差分阶数，吸收边界厚度");
    assert(!"!差分阶数，吸收边界厚度"@.contains('\n'));
    reveal_strlit("!采样间隔，采样点数，震源子波主频，震源子波延迟时");
    assert(!"!采样间隔，采样点数，震源子波主频，震源子波延迟时"@.contains('\n'));
    reveal_strlit("!震源所在X、Z方向节点序号，检波点所在Z方向节点序号");
    assert(!"!震源所在X、Z方向节点序号，检波点所在Z方向节点序号"@.contains('\n'));
    reveal_strlit("!点震源的类型：1胀缩震源，2垂直震源，3水平震源");
    assert(!"!点震源的类型：1胀缩震源，2垂直震源，3水平震源"@.contains('\n'));
    reveal_strlit("!模型的纵波速度");
    assert(!"!模型的纵波速度"@.contains('\n'));
    reveal_strlit("!模型的横波速度");
    assert(!"!模型的横波速度"@.contains('\n'));
    reveal_strlit("!模型的密度");
    assert(!"!模型的密度"@.contains('\n'));
    reveal_strlit("!保存震源子波的文件名");
    assert(!"!保存震源子波的文件名"@.contains('\n'));
    reveal_strlit("!保存共炮点记录水平分量的文件名");
    assert(!"!保存共炮点记录水平分量的文件名"@.contains('\n'));
    reveal_strlit("!保存共炮点记录垂直分量的文件名");
    assert(!"!保存共炮点记录垂直分量的文件名"@.contains('\n'));
    reveal_strlit("!保存波场水平分量的文件名");
    assert(!"!保存波场水平分量的文件名"@.contains('\n'));
    reveal_strlit("!保存波场垂直分量的文件名");
    assert(!"!保存波场垂直分量的文件名"@.contains('\n'));
    reveal_strlit("!自激自收区域的起点、终点位置");
    assert(!"!自激自收区域的起点、终点位置"@.contains('\n'));
}

/// The lines of `t` and `v` taken in turn: `t[0]`, `v[0]`, `t[1]`, `v[1]`, ...
pub open spec fn alternate(t: Seq<Seq<char>>, v: Seq<Seq<char>>) -> Seq<Seq<char>>
    decreases t.len(),
{
    if t.len() == 0 || v.len() == 0 {
        seq![]
    } else {
        seq![t[0], v[0]] + alternate(t.drop_first(), v.drop_first())
    }
}

/// Lines without line breaks, written each with `"\r\n"`, read back in turn.
proof fn lemma_interleave_lines_read(t: Seq<Seq<char>>, v: Seq<Seq<char>>)
    requires
        t.len() == v.len(),
        forall|k: int| 0 <= k < t.len() ==> !(#[trigger] t[k]).contains('\n'),
        forall|k: int| 0 <= k < v.len() ==> !(#[trigger] v[k]).contains('\n'),
    ensures
        text_lines(interleave_lines(t, v)) == alternate(t, v),
    decreases t.len(),
{
    if t.len() > 0 {
        let t1 = t.drop_first();
        let v1 = v.drop_first();
        assert forall|k: int| 0 <= k < t1.len() implies !(#[trigger] t1[k]).contains('\n') by {
            assert(t1[k] == t[k + 1]);
        }
        assert forall|k: int| 0 <= k < v1.len() implies !(#[trigger] v1[k]).contains('\n') by {
            assert(v1[k] == v[k + 1]);
        }
        lemma_interleave_lines_read(t1, v1);
        let rest = interleave_lines(t1, v1);
        assert(!t[0].contains('\n'));
        assert(!v[0].contains('\n'));
        lemma_text_lines_crlf(v[0], rest);
        lemma_text_lines_crlf(t[0], v[0] + seq!['\r', '\n'] + rest);
        assert(interleave_lines(t, v) =~= t[0] + seq!['\r', '\n'] + (v[0] + seq!['\r', '\n']
            + rest));
        assert(seq![t[0]] + (seq![v[0]] + alternate(t1, v1)) =~= seq![t[0], v[0]] + alternate(
            t1,
            v1,
        ));
    }
}

/// Line `2k + 1` of the alternation is `v[k]`.
proof fn lemma_alternate_odd(t: Seq<Seq<char>>, v: Seq<Seq<char>>, k: int)
    requires
        t.len() == v.len(),
        0 <= k < t.len(),
    ensures
        alternate(t, v).len() == 2 * t.len(),
        alternate(t, v)[2 * k + 1] == v[k],
    decreases t.len(),
{
    lemma_alternate_len(t, v);
    if k > 0 {
        lemma_alternate_odd(t.drop_first(), v.drop_first(), k - 1);
        assert(v.drop_first()[k - 1] == v[k]);
    }
}

proof fn lemma_alternate_len(t: Seq<Seq<char>>, v: Seq<Seq<char>>)
    requires
        t.len() == v.len(),
    ensures
        alternate(t, v).len() == 2 * t.len(),
    decreases t.len(),
{
    if t.len() > 0 {
        lemma_alternate_len(t.drop_first(), v.drop_first());
    }
}

/// A decimal numeral holds nothing but digits.
proof fn lemma_decimal_without(n: nat, c: char)
    requires
        !is_digit(c),
    ensures
        !decimal(n).contains(c),
{
    lemma_decimal_digits(n);
    if decimal(n).contains(c) {
        let i = choose|i: int| 0 <= i < decimal(n).len() && decimal(n)[i] == c;
        assert(is_digit(decimal(n)[i]));
    }
}

/// Joining texts without `c` by a separator other than `c` gives a text without `c`.
proof fn lemma_join_without(ps: Seq<Seq<char>>, sep: char, c: char)
    requires
        sep != c,
        forall|i: int| 0 <= i < ps.len() ==> !(#[trigger] ps[i]).contains(c),
    ensures
        !join_with(ps, sep).contains(c),
    decreases ps.len(),
{
    if ps.len() == 1 {
        assert(!ps[0].contains(c));
    } else if ps.len() > 1 {
        let init = ps.drop_last();
        assert forall|i: int| 0 <= i < init.len() implies !(#[trigger] init[i]).contains(c) by {
            assert(init[i] == ps[i]);
        }
        lemma_join_without(init, sep, c);
        let a = join_with(init, sep);
        let b = ps.last();
        assert(!b.contains(c)) by {
            assert(b == ps[ps.len() - 1]);
        }
        let s = a + seq![sep] + b;
        if s.contains(c) {
            let i = choose|i: int| 0 <= i < s.len() && s[i] == c;
            if i < a.len() {
                assert(a[i] == c);
            } else if i > a.len() {
                assert(b[i - a.len() - 1] == c);
            }
        }
    }
}

/// Decimal numerals joined with commas read back as their numbers.
proof fn lemma_usize_fields_decimals(ns: Seq<usize>)
    requires
        ns.len() > 0,
    ensures
        usize_fields(join_with(ns.map_values(|n: usize| decimal(n as nat)), ','))
            == Some(ns),
{
    let ds = ns.map_values(|n: usize| decimal(n as nat));
    assert forall|i: int| 0 <= i < ds.len() implies !(#[trigger] ds[i]).contains(',') by {
        lemma_decimal_without(ns[i] as nat, ',');
    }
    lemma_split_joined(ds, ',');
    assert forall|i: int| 0 <= i < ds.len() implies (#[trigger] parse_usize_text(ds[i]))
        == Some(ns[i]) by {
        lemma_parse_decimal_usize(ns[i]);
    }
    assert(ds.map_values(|p: Seq<char>| parse_usize_text(p)->Some_0) =~= ns);
}

/// The string fields of `m` hold no line break, and its real-valued texts are
/// real numbers without comma: what a parameter file can hold so that each value
/// stays on its line and in its place and reads back.
pub open spec fn writable(m: ModelPara) -> bool {
    &&& real_text(m.dt@) && real_text(m.fm@) && real_text(m.delay@)
    &&& !m.dt@.contains('\n') && !m.dt@.contains(',')
    &&& !m.fm@.contains('\n') && !m.fm@.contains(',')
    &&& !m.delay@.contains('\n') && !m.delay@.contains(',')
    &&& !m.vp_grd@.contains('\n')
    &&& !m.vs_grd@.contains('\n')
    &&& !m.pp_grd@.contains('\n')
    &&& !m.wavelet_bln@.contains('\n')
    &&& !m.cdp_x2@.contains('\n')
    &&& !m.cdp_z2@.contains('\n')
    &&& !m.wave_field_x@.contains('\n')
    &&& !m.wave_field_z@.contains('\n')
}

/// `p` holds the values of `m`, with the timing values as the texts written for them.
pub open spec fn record_matches(p: ParameterRecord, m: ModelPara) -> bool {
    &&& p.diff_order == m.diff_order
    &&& p.pml_h == m.pml_h
    &&& string_views(p.timing@) == seq![m.dt@, decimal(m.points as nat), m.fm@, m.delay@]
    &&& p.source_x == m.source_x
    &&& p.source_z == m.source_z
    &&& p.receiver_z == m.receiver_z
    &&& p.source_type == m.source_type
    &&& p.vp_grd@ == m.vp_grd@
    &&& p.vs_grd@ == m.vs_grd@
    &&& p.pp_grd@ == m.pp_grd@
    &&& p.wavelet_bln@ == m.wavelet_bln@
    &&& p.cdp_x2@ == m.cdp_x2@
    &&& p.cdp_z2@ == m.cdp_z2@
    &&& p.wave_field_x@ == m.wave_field_x@
    &&& p.wave_field_z@ == m.wave_field_z@
    &&& p.self_start == m.self_start
    &&& p.self_end == m.self_end
}

/// The lines of the parameter file for `m` are its comment and value lines in turn.
proof fn lemma_parameter_file_alternates(m: ModelPara)
    requires
        writable(m),
    ensures
        text_lines(parameter_file(m)) == alternate(template_lines(), value_lines(m)),
{
    let t = template_lines();
    let v = value_lines(m);
    lemma_template_single_lines();
    let l0 = seq![m.diff_order, m.pml_h];
    let l2 = seq![m.source_x, m.source_z, m.receiver_z];
    let l12 = seq![m.self_start, m.self_end];
    let d0 = l0.map_values(|n: usize| decimal(n as nat));
    let d2 = l2.map_values(|n: usize| decimal(n as nat));
    let d12 = l12.map_values(|n: usize| decimal(n as nat));
    assert(d0 =~= seq![decimal(m.diff_order as nat), decimal(m.pml_h as nat)]);
    assert(d2 =~= seq![
        decimal(m.source_x as nat),
        decimal(m.source_z as nat),
        decimal(m.receiver_z as nat),
    ]);
    assert(d12 =~= seq![decimal(m.self_start as nat), decimal(m.self_end as nat)]);
    let timing = seq![m.dt@, decimal(m.points as nat), m.fm@, m.delay@];
    lemma_decimal_without(m.points as nat, '\n');
    assert forall|k: int| 0 <= k < v.len() implies !(#[trigger] v[k]).contains('\n') by {
        if k == 0 {
            assert forall|i: int| 0 <= i < d0.len() implies !(#[trigger] d0[i]).contains('\n') by {
                lemma_decimal_without(l0[i] as nat, '\n');
            }
            lemma_join_without(d0, ',', '\n');
        } else if k == 1 {
            assert forall|i: int| 0 <= i < timing.len() implies !(#[trigger] timing[i]).contains(
                '\n',
            ) by {}
            lemma_join_without(timing, ',', '\n');
        } else if k == 2 {
            assert forall|i: int| 0 <= i < d2.len() implies !(#[trigger] d2[i]).contains('\n') by {
                lemma_decimal_without(l2[i] as nat, '\n');
            }
            lemma_join_without(d2, ',', '\n');
        } else if k == 3 {
            lemma_decimal_without(m.source_type as nat, '\n');
        } else if k == 12 {
            assert forall|i: int| 0 <= i < d12.len() implies !(#[trigger] d12[i]).contains('\n') by {
                lemma_decimal_without(l12[i] as nat, '\n');
            }
            lemma_join_without(d12, ',', '\n');
        }
    }
    lemma_interleave_lines_read(t, v);
}

/// Line `2k` of the alternation is `t[k]`.
proof fn lemma_alternate_even(t: Seq<Seq<char>>, v: Seq<Seq<char>>, k: int)
    requires
        t.len() == v.len(),
        0 <= k < t.len(),
    ensures
        alternate(t, v)[2 * k] == t[k],
    decreases t.len(),
{
    lemma_alternate_len(t, v);
    if k > 0 {
        lemma_alternate_even(t.drop_first(), v.drop_first(), k - 1);
        assert(t.drop_first()[k - 1] == t[k]);
    }
}

/// Law: the parameter file written for `m` has 26 lines: the thirteen comment
/// lines in their fixed order, each followed by the line of the value it names,
/// numbers in decimal and separated by commas.
pub proof fn lemma_parameter_file_lines(m: ModelPara)
    requires
        writable(m),
    ensures
        ({
            let ls = text_lines(parameter_file(m));
            &&& ls.len() == 26
            &&& ls[0] == "!差分阶数，吸收边界厚度"@
            &&& ls[1] == decimal(m.diff_order as nat) + seq![','] + decimal(m.pml_h as nat)
            &&& ls[2] == "!采样间隔，采样点数，震源子波主频，震源子波延迟时"@
            &&& ls[3] == m.dt@ + seq![','] + decimal(m.points as nat) + seq![','] + m.fm@ + seq![
                ',',
            ] + m.delay@
            &&& ls[4] == "!震源所在X、Z方向节点序号，检波点所在Z方向节点序号"@
            &&& ls[5] == decimal(m.source_x as nat) + seq![','] + decimal(m.source_z as nat)
                + seq![','] + decimal(m.receiver_z as nat)
            &&& ls[6] == "!点震源的类型：1胀缩震源，2垂直震源，3水平震源"@
            &&& ls[7] == decimal(m.source_type as nat)
            &&& ls[8] == "!模型的纵波速度"@
            &&& ls[9] == m.vp_grd@
            &&& ls[10] == "!模型的横波速度"@
            &&& ls[11] == m.vs_grd@
            &&& ls[12] == "!模型的密度"@
            &&& ls[13] == m.pp_grd@
            &&& ls[14] == "!保存震源子波的文件名"@
            &&& ls[15] == m.wavelet_bln@
            &&& ls[16] == "!保存共炮点记录水平分量的文件名"@
            &&& ls[17] == m.cdp_x2@
            &&& ls[18] == "!保存共炮点记录垂直分量的文件名"@
            &&& ls[19] == m.cdp_z2@
            &&& ls[20] == "!保存波场水平分量的文件名"@
            &&& ls[21] == m.wave_field_x@
            &&& ls[22] == "!保存波场垂直分量的文件名"@
            &&& ls[23] == m.wave_field_z@
            &&& ls[24] == "!自激自收区域的起点、终点位置"@
            &&& ls[25] == decimal(m.self_start as nat) + seq![','] + decimal(m.self_end as nat)
        }),
{
    let t = template_lines();
    let v = value_lines(m);
    lemma_parameter_file_alternates(m);
    let ls = text_lines(parameter_file(m));
    lemma_alternate_len(t, v);
    lemma_alternate_even(t, v, 0);
    lemma_alternate_odd(t, v, 0);
    lemma_alternate_even(t, v, 1);
    lemma_alternate_odd(t, v, 1);
    lemma_alternate_even(t, v, 2);
    lemma_alternate_odd(t, v, 2);
    lemma_alternate_even(t, v, 3);
    lemma_alternate_odd(t, v, 3);
    lemma_alternate_even(t, v, 4);
    lemma_alternate_odd(t, v, 4);
    lemma_alternate_even(t, v, 5);
    lemma_alternate_odd(t, v, 5);
    lemma_alternate_even(t, v, 6);
    lemma_alternate_odd(t, v, 6);
    lemma_alternate_even(t, v, 7);
    lemma_alternate_odd(t, v, 7);
    lemma_alternate_even(t, v, 8);
    lemma_alternate_odd(t, v, 8);
    lemma_alternate_even(t, v, 9);
    lemma_alternate_odd(t, v, 9);
    lemma_alternate_even(t, v, 10);
    lemma_alternate_odd(t, v, 10);
    lemma_alternate_even(t, v, 11);
    lemma_alternate_odd(t, v, 11);
    lemma_alternate_even(t, v, 12);
    lemma_alternate_odd(t, v, 12);
    let a = decimal(m.diff_order as nat);
    let b = decimal(m.pml_h as nat);
    assert(seq![a, b].drop_last() == seq![a]);
    let x = decimal(m.source_x as nat);
    let y = decimal(m.source_z as nat);
    let z = decimal(m.receiver_z as nat);
    assert(seq![x, y, z].drop_last() == seq![x, y]);
    assert(seq![x, y].drop_last() == seq![x]);
    let p = decimal(m.points as nat);
    assert(seq![m.dt@, p, m.fm@, m.delay@].drop_last() == seq![m.dt@, p, m.fm@]);
    assert(seq![m.dt@, p, m.fm@].drop_last() == seq![m.dt@, p]);
    assert(seq![m.dt@, p].drop_last() == seq![m.dt@]);
    let e = decimal(m.self_start as nat);
    let f = decimal(m.self_end as nat);
    assert(seq![e, f].drop_last() == seq![e]);
    assert(join_with(seq![a], ',') == a);
    assert(join_with(seq![a, b], ',') == a + seq![','] + b);
    assert(join_with(seq![x], ',') == x);
    assert(join_with(seq![x, y], ',') == x + seq![','] + y);
    assert(join_with(seq![x, y, z], ',') == x + seq![','] + y + seq![','] + z);
    assert(join_with(seq![m.dt@], ',') == m.dt@);
    assert(join_with(seq![m.dt@, p], ',') == m.dt@ + seq![','] + p);
    assert(join_with(seq![m.dt@, p, m.fm@], ',') == m.dt@ + seq![','] + p + seq![','] + m.fm@);
    assert(join_with(seq![m.dt@, p, m.fm@, m.delay@], ',') == m.dt@ + seq![','] + p + seq![',']
        + m.fm@ + seq![','] + m.delay@);
    assert(join_with(seq![e], ',') == e);
    assert(join_with(seq![e, f], ',') == e + seq![','] + f);
    assert(ls[0] == t[0] && ls[1] == v[0] && ls[2] == t[1] && ls[3] == v[1]);
    assert(ls[4] == t[2] && ls[5] == v[2] && ls[6] == t[3] && ls[7] == v[3]);
    assert(ls[8] == t[4] && ls[9] == v[4] && ls[10] == t[5] && ls[11] == v[5]);
    assert(ls[12] == t[6] && ls[13] == v[6] && ls[14] == t[7] && ls[15] == v[7]);
    assert(ls[16] == t[8] && ls[17] == v[8] && ls[18] == t[9] && ls[19] == v[9]);
    assert(ls[20] == t[10] && ls[21] == v[10] && ls[22] == t[11] && ls[23] == v[11]);
    assert(ls[24] == t[12] && ls[25] == v[12]);
}

/// Law: the parameter file written for `m`, as text or as its UTF-8 bytes, reads
/// back without error, and what it reads back as holds the values of `m`.
pub proof fn lemma_parameter_file_reads_back(m: ModelPara, p: ParameterRecord)
    requires
        writable(m),
    ensures
        valid_utf8(encode_utf8(parameter_file(m))),
        decode_utf8(encode_utf8(parameter_file(m))) == parameter_file(m),
        parameter_error(parameter_file(m)) is None,
        parameter_record_holds(p, parameter_file(m)) ==> record_matches(p, m),
{
    encode_utf8_valid_utf8(parameter_file(m));
    encode_utf8_decode_utf8(parameter_file(m));
    let t = template_lines();
    let v = value_lines(m);
    lemma_template_single_lines();
    let l0 = seq![m.diff_order, m.pml_h];
    let l2 = seq![m.source_x, m.source_z, m.receiver_z];
    let l12 = seq![m.self_start, m.self_end];
    assert(v[0] == join_with(l0.map_values(|n: usize| decimal(n as nat)), ',')) by {
        assert(l0.map_values(|n: usize| decimal(n as nat)) =~= seq![
            decimal(m.diff_order as nat),
            decimal(m.pml_h as nat),
        ]);
    }
    assert(v[2] == join_with(l2.map_values(|n: usize| decimal(n as nat)), ',')) by {
        assert(l2.map_values(|n: usize| decimal(n as nat)) =~= seq![
            decimal(m.source_x as nat),
            decimal(m.source_z as nat),
            decimal(m.receiver_z as nat),
        ]);
    }
    assert(v[12] == join_with(l12.map_values(|n: usize| decimal(n as nat)), ',')) by {
        assert(l12.map_values(|n: usize| decimal(n as nat)) =~= seq![
            decimal(m.self_start as nat),
            decimal(m.self_end as nat),
        ]);
    }
    let l7 = seq![m.source_type];
    assert(v[3] == join_with(l7.map_values(|n: usize| decimal(n as nat)), ',')) by {
        assert(l7.map_values(|n: usize| decimal(n as nat)) =~= seq![
            decimal(m.source_type as nat),
        ]);
    }
    lemma_usize_fields_decimals(l0);
    lemma_usize_fields_decimals(l2);
    lemma_usize_fields_decimals(l7);
    lemma_usize_fields_decimals(l12);
    let timing = seq![m.dt@, decimal(m.points as nat), m.fm@, m.delay@];
    assert(v[1] == join_with(timing, ','));
    lemma_decimal_without(m.points as nat, ',');
    lemma_decimal_without(m.points as nat, '\n');
    assert forall|i: int| 0 <= i < timing.len() implies !(#[trigger] timing[i]).contains(',') by {}
    lemma_split_joined(timing, ',');
    lemma_decimal_real(m.points as nat);
    assert(all_real(timing));
    lemma_parameter_file_alternates(m);
    let ls = text_lines(parameter_file(m));
    assert(ls == alternate(t, v));
    lemma_alternate_odd(t, v, 0);
    lemma_alternate_odd(t, v, 1);
    lemma_alternate_odd(t, v, 2);
    lemma_alternate_odd(t, v, 3);
    lemma_alternate_odd(t, v, 4);
    lemma_alternate_odd(t, v, 5);
    lemma_alternate_odd(t, v, 6);
    lemma_alternate_odd(t, v, 7);
    lemma_alternate_odd(t, v, 8);
    lemma_alternate_odd(t, v, 9);
    lemma_alternate_odd(t, v, 10);
    lemma_alternate_odd(t, v, 11);
    lemma_alternate_odd(t, v, 12);
    assert(ls.len() == 26);
}

/// `prefix` followed by `suffix`, as a new string.
fn with_suffix(prefix: &str, suffix: &str) -> (s: String)
    ensures
        s@ == prefix@ + suffix@,
{
    let mut s = String::new();
    s.append(prefix);
    s.append(suffix);
    assert(Seq::<char>::empty() + prefix@ == prefix@);
    s
}

/// A new string holding `t`.
fn owned(t: &str) -> (s: String)
    ensures
        s@ == t@,
{
    let mut s = String::new();
    s.append(t);
    assert(Seq::<char>::empty() + t@ =~= t@);
    s
}

impl ModelPara {
    /// The default parameters for the model whose files start with `model_prefix`.
    pub fn new_with_default(model_prefix: &str) -> (m: ModelPara)
        ensures
            m.diff_order == 10,
            m.pml_h == 100,
            m.dt@ == "0.0002"@,
            m.points == 5001,
            m.fm@ == "20"@,
            m.delay@ == "0.05"@,
            m.source_x == 1,
            m.source_z == 1,
            m.receiver_z == 1,
            m.source_type == 2,
            m.vp_grd@ == model_prefix@ + "vp.grd"@,
            m.vs_grd@ == model_prefix@ + "vs.grd"@,
            m.pp_grd@ == model_prefix@ + "vp.grd"@,
            m.wavelet_bln@ == "wavelet.bln"@,
            m.cdp_x2@ == model_prefix@ + "-point-x2.cdp"@,
            m.cdp_z2@ == model_prefix@ + "-point-z2.cdp"@,
            m.wave_field_x@ == model_prefix@ + "-point-X.dat"@,
            m.wave_field_z@ == model_prefix@ + "-point-Z.dat"@,
            m.self_start == 1,
            m.self_end == 21,
    {
        ModelPara {
            diff_order: 10,
            pml_h: 100,
            dt: owned("0.0002"),
            points: 5001,
            fm: owned("20"),
            delay: owned("0.05"),
            source_x: 1,
            source_z: 1,
            receiver_z: 1,
            source_type: 2,
            vp_grd: with_suffix(model_prefix, "vp.grd"),
            vs_grd: with_suffix(model_prefix, "vs.grd"),
            pp_grd: with_suffix(model_prefix, "vp.grd"),
            wavelet_bln: owned("wavelet.bln"),
            cdp_x2: with_suffix(model_prefix, "-point-x2.cdp"),
            cdp_z2: with_suffix(model_prefix, "-point-z2.cdp"),
            wave_field_x: with_suffix(model_prefix, "-point-X.dat"),
            wave_field_z: with_suffix(model_prefix, "-point-Z.dat"),
            self_start: 1,
            self_end: 21,
        }
    }
}

/// The path of the parameter file in the directory `dir_name`.
pub fn parameter_file_path(dir_name: &str) -> (s: String)
    ensures
        s@ == dir_name@ + "\\PARAMETER.txt"@,
{
    with_suffix(dir_name, "\\PARAMETER.txt")
}

impl ModelPara {
    pub fn diff_order(&self) -> (r: &usize)
        ensures
            *r == self.diff_order,
    {
        &self.diff_order
    }

    pub fn pml_h(&self) -> (r: &usize)
        ensures
            *r == self.pml_h,
    {
        &self.pml_h
    }

    pub fn dt(&self) -> (r: &String)
        ensures
            *r == self.dt,
    {
        &self.dt
    }

    pub fn points(&self) -> (r: &usize)
        ensures
            *r == self.points,
    {
        &self.points
    }

    pub fn fm(&self) -> (r: &String)
        ensures
            *r == self.fm,
    {
        &self.fm
    }

    pub fn delay(&self) -> (r: &String)
        ensures
            *r == self.delay,
    {
        &self.delay
    }

    pub fn source_x(&self) -> (r: &usize)
        ensures
            *r == self.source_x,
    {
        &self.source_x
    }

    pub fn source_z(&self) -> (r: &usize)
        ensures
            *r == self.source_z,
    {
        &self.source_z
    }

    pub fn receiver_z(&self) -> (r: &usize)
        ensures
            *r == self.receiver_z,
    {
        &self.receiver_z
    }

    pub fn source_type(&self) -> (r: &usize)
        ensures
            *r == self.source_type,
    {
        &self.source_type
    }

    pub fn vp_grd(&self) -> (r: &String)
        ensures
            *r == self.vp_grd,
    {
        &self.vp_grd
    }

    pub fn vs_grd(&self) -> (r: &String)
        ensures
            *r == self.vs_grd,
    {
        &self.vs_grd
    }

    pub fn pp_grd(&self) -> (r: &String)
        ensures
            *r == self.pp_grd,
    {
        &self.pp_grd
    }

    pub fn wavelet_bln(&self) -> (r: &String)
        ensures
            *r == self.wavelet_bln,
    {
        &self.wavelet_bln
    }

    pub fn cdp_x2(&self) -> (r: &String)
        ensures
            *r == self.cdp_x2,
    {
        &self.cdp_x2
    }

    pub fn cdp_z2(&self) -> (r: &String)
        ensures
            *r == self.cdp_z2,
    {
        &self.cdp_z2
    }

    pub fn wave_field_x(&self) -> (r: &String)
        ensures
            *r == self.wave_field_x,
    {
        &self.wave_field_x
    }

    pub fn wave_field_z(&self) -> (r: &String)
        ensures
            *r == self.wave_field_z,
    {
        &self.wave_field_z
    }

    pub fn self_start(&self) -> (r: &usize)
        ensures
            *r == self.self_start,
    {
        &self.self_start
    }

    pub fn self_end(&self) -> (r: &usize)
        ensures
            *r == self.self_end,
    {
        &self.self_end
    }
}

} // verus!
