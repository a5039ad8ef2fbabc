//! Which setting comes from which variable, and what its words mean.

use vstd::prelude::*;
use crate::binary64::one;
use crate::colour::{lemma_last_piece, lemma_one_piece};
use crate::config::{named_anchor, parsed_clip, texts_of, Anchor, Clip, Config};
use crate::decimals::{real_number, RealView};
use crate::error::Fault;
use crate::geometry::{named_dim, Axis, DimSpec, OutputSize};
use crate::number::{decimal, decimal_reads_back, digit, lemma_decimal_digits};
use crate::text::{lemma_position, lemma_trimmed_already, lower, pieces, position, texts, trim};
use crate::util::{lookup, words, Env, Issue};

verus! {

/// A variable is set to a text that is not empty; the first one of a name counts.
pub open spec fn given(env: Env, name: Seq<char>, v: Seq<char>) -> bool {
    &&& v.len() > 0
    &&& exists|i: int|
        {
            &&& 0 <= i < env.vars@.len()
            &&& #[trigger] env.vars@[i].0@ == name
            &&& env.vars@[i].1@ == v
            &&& forall|j: int| 0 <= j < i ==> #[trigger] env.vars@[j].0@ != name
        }
}

/// A variable is not set, or the first one of its name is empty.
pub open spec fn unset(env: Env, name: Seq<char>) -> bool {
    ||| forall|i: int| 0 <= i < env.vars@.len() ==> #[trigger] env.vars@[i].0@ != name
    ||| exists|i: int|
        {
            &&& 0 <= i < env.vars@.len()
            &&& #[trigger] env.vars@[i].0@ == name
            &&& env.vars@[i].1@.len() == 0
            &&& forall|j: int| 0 <= j < i ==> #[trigger] env.vars@[j].0@ != name
        }
}

proof fn lemma_lookup(vars: Seq<(String, String)>, name: Seq<char>, i: int)
    requires
        0 <= i < vars.len(),
        vars[i].0@ == name,
        forall|j: int| 0 <= j < i ==> #[trigger] vars[j].0@ != name,
    ensures
        lookup(vars, name) == Some(vars[i].1@),
    decreases vars.len(),
{
    if i > 0 {
        assert(vars[0].0@ != name);
        let rest = vars.drop_first();
        assert forall|j: int| 0 <= j < i - 1 implies #[trigger] rest[j].0@ != name by {
            assert(rest[j] == vars[j + 1]);
        }
        assert(rest[i - 1] == vars[i]);
        lemma_lookup(rest, name, i - 1);
    }
}

proof fn lemma_no_lookup(vars: Seq<(String, String)>, name: Seq<char>)
    requires
        forall|i: int| 0 <= i < vars.len() ==> #[trigger] vars[i].0@ != name,
    ensures
        lookup(vars, name) is None,
    decreases vars.len(),
{
    if vars.len() > 0 {
        assert(vars[0].0@ != name);
        let rest = vars.drop_first();
        assert forall|i: int| 0 <= i < rest.len() implies #[trigger] rest[i].0@ != name by {
            assert(rest[i] == vars[i + 1]);
        }
        lemma_no_lookup(rest, name);
    }
}

/// A variable that is set is what the environment says.
proof fn lemma_setting(env: Env, name: Seq<char>)
    ensures
        forall|v: Seq<char>| #[trigger] given(env, name, v) ==> env.setting(name) == Some(v),
        unset(env, name) ==> env.setting(name) is None,
{
    assert forall|v: Seq<char>| #[trigger] given(env, name, v) implies env.setting(name) == Some(v) by {
        let i = choose|i: int|
            {
                &&& 0 <= i < env.vars@.len()
                &&& #[trigger] env.vars@[i].0@ == name
                &&& env.vars@[i].1@ == v
                &&& forall|j: int| 0 <= j < i ==> #[trigger] env.vars@[j].0@ != name
            };
        lemma_lookup(env.vars@, name, i);
    }
    if unset(env, name) {
        if forall|i: int| 0 <= i < env.vars@.len() ==> #[trigger] env.vars@[i].0@ != name {
            lemma_no_lookup(env.vars@, name);
        } else {
            let i = choose|i: int|
                {
                    &&& 0 <= i < env.vars@.len()
                    &&& #[trigger] env.vars@[i].0@ == name
                    &&& env.vars@[i].1@.len() == 0
                    &&& forall|j: int| 0 <= j < i ==> #[trigger] env.vars@[j].0@ != name
                };
            lemma_lookup(env.vars@, name, i);
        }
    }
}

/// A text is that of a variable, or its default.
pub open spec fn is_text(env: Env, name: Seq<char>, text: Seq<char>, default: Seq<char>) -> bool {
    &&& forall|v: Seq<char>| #[trigger] given(env, name, v) ==> text == v
    &&& unset(env, name) ==> text == default
}

/// A text is that of a variable, where it is set.
pub open spec fn is_optional(env: Env, name: Seq<char>, text: Option<String>) -> bool {
    &&& forall|v: Seq<char>| #[trigger] given(env, name, v) ==> (text matches Some(t) && t@ == v)
    &&& unset(env, name) ==> text is None
}

/// A switch is on or off as its variable says, or as it is by default.
pub open spec fn is_switch(env: Env, name: Seq<char>, on: bool, default: bool) -> bool {
    &&& forall|v: Seq<char>| #[trigger]
        given(env, name, v) ==> {
            &&& lower(v) == "1"@ || lower(v) == "true"@ || lower(v) == "yes"@ || lower(v) == "on"@
                || lower(v) == "y"@ ==> on
            &&& lower(v) == "0"@ || lower(v) == "false"@ || lower(v) == "no"@ || lower(v) == "off"@
                || lower(v) == "n"@ ==> !on
        }
    &&& unset(env, name) ==> on == default
}

/// Arguments are the words of a variable, and none where it says "none" or is not set.
pub open spec fn are_arguments(env: Env, name: Seq<char>, args: Seq<Seq<char>>) -> bool {
    &&& forall|v: Seq<char>| #[trigger]
        given(env, name, v) ==> if lower(v) == lower("none"@) {
            args.len() == 0
        } else {
            words(v) == Ok::<Seq<Seq<char>>, Fault>(args)
        }
    &&& unset(env, name) ==> args.len() == 0
}

/// Arguments replace a default where their variable is set, and only there.
pub open spec fn are_replaced(env: Env, name: Seq<char>, args: Option<Vec<String>>) -> bool {
    &&& forall|v: Seq<char>| #[trigger]
        given(env, name, v) ==> (args matches Some(a) && if lower(v) == lower("none"@) {
            a@.len() == 0
        } else {
            words(v) == Ok::<Seq<Seq<char>>, Fault>(texts(a@))
        })
    &&& unset(env, name) ==> args is None
}

/// The programs and streams are those of their own variables, each with its own default.
pub proof fn the_tools_are_set_by_their_variables(cfg: Config, env: Env)
    requires
        cfg.uses(env),
    ensures
        is_text(env, "FF_FFMPEG"@, cfg.ffmpeg@, "ffmpeg"@),
        is_text(env, "FF_FFPROBE"@, cfg.ffprobe@, "ffprobe"@),
        is_text(env, "FF_LOGLEVEL"@, cfg.loglevel@, "error"@),
        is_text(env, "FF_VMAP"@, cfg.vmap@, "0:v:0"@),
        is_text(env, "FF_AMAP"@, cfg.amap@, "0:a:0"@),
        is_text(env, "FF_PIX_FMT"@, cfg.pix_fmt@, "auto"@),
        is_text(env, "FF_AUDIO_CODEC"@, cfg.audio_codec@, "pcm_f32le"@),
        is_text(env, "FF_AUDIO_EXT"@, cfg.audio_ext@, "wav"@),
        is_text(env, "FF_OUT_PIX_FMT"@, cfg.out_pix_fmt@, "auto"@),
        is_switch(env, "FF_NO_AUDIO"@, cfg.no_audio, false),
{
    lemma_setting(env, "FF_FFMPEG"@);
    lemma_setting(env, "FF_FFPROBE"@);
    lemma_setting(env, "FF_LOGLEVEL"@);
    lemma_setting(env, "FF_VMAP"@);
    lemma_setting(env, "FF_AMAP"@);
    lemma_setting(env, "FF_PIX_FMT"@);
    lemma_setting(env, "FF_AUDIO_CODEC"@);
    lemma_setting(env, "FF_AUDIO_EXT"@);
    lemma_setting(env, "FF_OUT_PIX_FMT"@);
    lemma_switch(env, "FF_NO_AUDIO"@, cfg.no_audio, false);
}

/// The rates, codecs and filters are those of their own variables, where these are set.
pub proof fn what_can_be_left_open_is_set_by_its_variable(cfg: Config, env: Env)
    requires
        cfg.uses(env),
    ensures
        is_optional(env, "FF_FPS"@, cfg.fps),
        is_optional(env, "FF_OUT_FPS"@, cfg.out_fps),
        is_optional(env, "FF_TEMP_VCODEC"@, cfg.temp_vcodec),
        is_optional(env, "FF_VCODEC"@, cfg.vcodec),
        is_optional(env, "FF_ACODEC"@, cfg.acodec),
        is_optional(env, "FF_AUDIO_FILTERS"@, cfg.audio_filters),
        forall|v: Seq<char>| #[trigger]
            given(env, "FF_VF"@, v) ==> if lower(v) == lower("none"@) {
                cfg.vf is None
            } else {
                cfg.vf matches Some(t) && t@ == v
            },
        unset(env, "FF_VF"@) ==> cfg.vf is None,
{
    lemma_setting(env, "FF_FPS"@);
    lemma_setting(env, "FF_OUT_FPS"@);
    lemma_setting(env, "FF_TEMP_VCODEC"@);
    lemma_setting(env, "FF_VCODEC"@);
    lemma_setting(env, "FF_ACODEC"@);
    lemma_setting(env, "FF_AUDIO_FILTERS"@);
    lemma_setting(env, "FF_VF"@);
}

/// The argument lists are those of their own variables.
pub proof fn arguments_are_set_by_their_variables(cfg: Config, env: Env)
    requires
        cfg.uses(env),
    ensures
        are_arguments(env, "FF_GLOBAL_ARGS"@, texts(cfg.global_args@)),
        are_arguments(env, "FF_IN_ARGS"@, texts(cfg.in_args@)),
        are_arguments(env, "FF_DECODE_ARGS"@, texts(cfg.decode_args@)),
        are_arguments(env, "FF_AUDIO_ARGS"@, texts(cfg.audio_args@)),
        are_replaced(env, "FF_TEMP_VCODEC_ARGS"@, cfg.temp_vcodec_args),
        are_replaced(env, "FF_VCODEC_ARGS"@, cfg.vcodec_args),
        are_replaced(env, "FF_ACODEC_ARGS"@, cfg.acodec_args),
        are_replaced(env, "FF_ENCODE_ARGS"@, cfg.encode_args),
        are_replaced(env, "FF_COLOR_ARGS"@, cfg.color_args),
{
    lemma_setting(env, "FF_GLOBAL_ARGS"@);
    lemma_setting(env, "FF_IN_ARGS"@);
    lemma_setting(env, "FF_DECODE_ARGS"@);
    lemma_setting(env, "FF_AUDIO_ARGS"@);
    lemma_replaced(env, "FF_TEMP_VCODEC_ARGS"@, cfg.temp_vcodec_args);
    lemma_replaced(env, "FF_VCODEC_ARGS"@, cfg.vcodec_args);
    lemma_replaced(env, "FF_ACODEC_ARGS"@, cfg.acodec_args);
    lemma_replaced(env, "FF_ENCODE_ARGS"@, cfg.encode_args);
    lemma_replaced(env, "FF_COLOR_ARGS"@, cfg.color_args);
}

proof fn lemma_replaced(env: Env, name: Seq<char>, args: Option<Vec<String>>)
    requires
        env.replacement(name) == Ok::<Option<Seq<Seq<char>>>, Issue>(texts_of(args)),
    ensures
        are_replaced(env, name, args),
{
    lemma_setting(env, name);
    if let Some(a) = args {
        assert(texts(a@).len() == a@.len());
    }
}

proof fn lemma_switch(env: Env, name: Seq<char>, on: bool, default: bool)
    requires
        env.switch(name, default) == Ok::<bool, Issue>(on),
    ensures
        is_switch(env, name, on, default),
{
    lemma_setting(env, name);
    lemma_switch_words();
}

/// No word turns a switch both on and off.
proof fn lemma_switch_words()
    ensures
        "0"@[0] == '0' && "false"@[0] == 'f' && "no"@[0] == 'n' && "n"@[0] == 'n',
        "off"@[0] == 'o' && "off"@[1] == 'f',
        "1"@[0] == '1' && "true"@[0] == 't' && "yes"@[0] == 'y' && "y"@[0] == 'y',
        "on"@[0] == 'o' && "on"@[1] == 'n',
{
    reveal_strlit("0");
    reveal_strlit("false");
    reveal_strlit("no");
    reveal_strlit("off");
    reveal_strlit("n");
    reveal_strlit("1");
    reveal_strlit("true");
    reveal_strlit("yes");
    reveal_strlit("on");
    reveal_strlit("y");
}

/// The switches of the rotation, its places and its colour are those of their own variables.
pub proof fn the_rotation_is_set_by_its_variables(cfg: Config, env: Env, cpus: usize)
    requires
        cfg.rotates_as(env, cpus),
    ensures
        is_switch(env, "ROT_QUIET"@, cfg.quiet, false),
        is_switch(env, "ROT_DRY_RUN"@, cfg.dry_run, false),
        is_switch(env, "ROT_KEEP_TEMP"@, cfg.keep_temp, false),
        is_switch(env, "ROT_FORCE"@, cfg.force, false),
        is_switch(env, "ROT_CROP"@, cfg.crop, false),
        is_switch(env, "ROT_EVEN_DIMS"@, cfg.even_dims, true),
        is_optional(env, "ROT_TMPDIR"@, cfg.tmpdir),
        is_text(env, "ROT_FILL"@, cfg.fill_spec@, "0,0,0"@),
{
    lemma_switch(env, "ROT_QUIET"@, cfg.quiet, false);
    lemma_switch(env, "ROT_DRY_RUN"@, cfg.dry_run, false);
    lemma_switch(env, "ROT_KEEP_TEMP"@, cfg.keep_temp, false);
    lemma_switch(env, "ROT_FORCE"@, cfg.force, false);
    lemma_switch(env, "ROT_CROP"@, cfg.crop, false);
    lemma_switch(env, "ROT_EVEN_DIMS"@, cfg.even_dims, true);
    lemma_setting(env, "ROT_TMPDIR"@);
    lemma_setting(env, "ROT_FILL"@);
}

/// The counts of the rotation are those of their own variables: threads, megabytes per chunk and the
/// share of memory, which is 80 percent by default.
pub proof fn the_counts_are_set_by_their_variables(cfg: Config, env: Env, cpus: usize)
    requires
        cfg.rotates_as(env, cpus),
    ensures
        unset(env, "ROT_THREADS"@) ==> cfg.threads == cpus,
        forall|n: nat|
            n <= usize::MAX && given(env, "ROT_THREADS"@, #[trigger] decimal(n)) ==> cfg.threads
                == if n == 0 {
                cpus as nat
            } else {
                n
            },
        unset(env, "ROT_CHUNK_MB"@) ==> cfg.chunk_mb == 512,
        forall|n: nat|
            1 <= n <= usize::MAX && given(env, "ROT_CHUNK_MB"@, #[trigger] decimal(n))
                ==> cfg.chunk_mb == n,
        unset(env, "ROT_IN_MEMORY"@) ==> cfg.in_memory_pct.value() == 80 * one(),
        forall|v: Seq<char>| #[trigger]
            given(env, "ROT_IN_MEMORY"@, v) ==> {
                &&& real_number(v) matches Some(RealView::Finite(p)) ==> cfg.in_memory_pct.value()
                    == p
                &&& 0 <= cfg.in_memory_pct.value() <= 100 * one()
            },
{
    lemma_setting(env, "ROT_THREADS"@);
    lemma_setting(env, "ROT_CHUNK_MB"@);
    lemma_setting(env, "ROT_IN_MEMORY"@);
    assert forall|n: nat|
        n <= usize::MAX && given(env, "ROT_THREADS"@, #[trigger] decimal(n)) implies cfg.threads
        == if n == 0 {
        cpus as nat
    } else {
        n
    } by {
        decimal_reads_back(n, usize::MAX as nat);
    }
    assert forall|n: nat|
        1 <= n <= usize::MAX && given(env, "ROT_CHUNK_MB"@, #[trigger] decimal(n)) implies cfg.chunk_mb
        == n by {
        decimal_reads_back(n, usize::MAX as nat);
    }
}

/// The words for what happens to the audio, for where the volume is held, and for whether the audio
/// is reversed.
pub proof fn words_choose_the_mode(cfg: Config, env: Env, cpus: usize)
    requires
        cfg.rotates_as(env, cpus),
    ensures
        unset(env, "ROT_AUDIO_MODE"@) ==> cfg.audio_mode is Tempo,
        unset(env, "ROT_MODE"@) ==> cfg.mode is Auto,
        unset(env, "ROT_AUDIO_REVERSE"@) ==> cfg.audio_reverse is None,
        unset(env, "ROT_INTERP"@) ==> cfg.interp is Trilinear,
        forall|v: Seq<char>| #[trigger]
            given(env, "ROT_AUDIO_MODE"@, v) ==> {
                &&& lower(v) == "tempo"@ ==> cfg.audio_mode is Tempo
                &&& lower(v) == "rate"@ ==> cfg.audio_mode is Rate
                &&& lower(v) == "none"@ ==> cfg.audio_mode is Keep
            },
        forall|v: Seq<char>| #[trigger]
            given(env, "ROT_MODE"@, v) ==> {
                &&& lower(v) == "auto"@ ==> cfg.mode is Auto
                &&& lower(v) == "stream"@ ==> cfg.mode is Stream
                &&& lower(v) == "ram"@ ==> cfg.mode is Ram
                &&& lower(v) == "disk"@ ==> cfg.mode is Disk
            },
        forall|v: Seq<char>| #[trigger]
            given(env, "ROT_AUDIO_REVERSE"@, v) ==> {
                &&& lower(v) == "auto"@ ==> cfg.audio_reverse is None
                &&& lower(v) == "1"@ ==> cfg.audio_reverse == Some(true)
                &&& lower(v) == "0"@ ==> cfg.audio_reverse == Some(false)
            },
        forall|v: Seq<char>| #[trigger]
            given(env, "ROT_INTERP"@, v) ==> {
                &&& lower(trim(v)) == "nearest"@ ==> cfg.interp is Nearest
                &&& lower(trim(v)) == "trilinear"@ ==> cfg.interp is Trilinear
            },
{
    lemma_setting(env, "ROT_AUDIO_MODE"@);
    lemma_setting(env, "ROT_MODE"@);
    lemma_setting(env, "ROT_AUDIO_REVERSE"@);
    lemma_setting(env, "ROT_INTERP"@);
    lemma_switch_words();
    lemma_mode_words();
    lemma_more_mode_words();
}

proof fn lemma_mode_words()
    ensures
        "tempo"@.len() == 5 && "tempo"@[0] == 't' && lower("tempo"@) == "tempo"@,
        "atempo"@.len() == 6 && "stretch"@.len() == 7,
        "rate"@.len() == 4 && "rate"@[0] == 'r',
        "resample"@.len() == 8,
        "tape"@.len() == 4 && "tape"@[0] == 't',
        "pitch"@.len() == 5 && "pitch"@[0] == 'p',
        "none"@.len() == 4 && "none"@[0] == 'n',
        "keep"@.len() == 4 && "keep"@[0] == 'k',
{
    reveal_strlit("tempo");
    reveal_strlit("atempo");
    reveal_strlit("stretch");
    reveal_strlit("rate");
    reveal_strlit("resample");
    reveal_strlit("tape");
    reveal_strlit("pitch");
    reveal_strlit("none");
    reveal_strlit("keep");
    assert(lower("tempo"@) =~= "tempo"@);
}

proof fn lemma_more_mode_words()
    ensures
        "auto"@.len() == 4 && "auto"@[0] == 'a' && lower("auto"@) == "auto"@,
        "stream"@.len() == 6 && "stream"@[0] == 's',
        "planar"@.len() == 6 && "planar"@[0] == 'p',
        "ram"@.len() == 3 && "ram"@[0] == 'r',
        "memory"@.len() == 6 && "memory"@[0] == 'm',
        "mem"@.len() == 3 && "mem"@[0] == 'm',
        "disk"@.len() == 4 && "disk"@[0] == 'd',
        "mmap"@.len() == 4 && "mmap"@[0] == 'm',
        "nearest"@.len() == 7 && "nearest"@[0] == 'n',
        "point"@.len() == 5 && "nn"@.len() == 2,
        "trilinear"@.len() == 9 && "trilinear"@[0] == 't' && lower(trim("trilinear"@))
            == "trilinear"@,
        "linear"@.len() == 6,
{
    reveal_strlit("auto");
    reveal_strlit("stream");
    reveal_strlit("planar");
    reveal_strlit("ram");
    reveal_strlit("memory");
    reveal_strlit("mem");
    reveal_strlit("disk");
    reveal_strlit("mmap");
    reveal_strlit("nearest");
    reveal_strlit("point");
    reveal_strlit("nn");
    reveal_strlit("trilinear");
    reveal_strlit("linear");
    assert(lower("auto"@) =~= "auto"@);
    lemma_trimmed_already("trilinear"@);
    assert(lower("trilinear"@) =~= "trilinear"@);
}

/// The words for a time anchor.
pub proof fn words_choose_the_anchor(v: Seq<char>)
    ensures
        lower(trim(v)) == "start"@ ==> named_anchor(v) == Some(Anchor::Start),
        lower(trim(v)) == "middle"@ ==> named_anchor(v) == Some(Anchor::Middle),
        lower(trim(v)) == "end"@ ==> named_anchor(v) == Some(Anchor::End),
{
    reveal_strlit("start");
    reveal_strlit("begin");
    reveal_strlit("beginning");
    reveal_strlit("first");
    reveal_strlit("head");
    reveal_strlit("middle");
    reveal_strlit("mid");
    reveal_strlit("center");
    reveal_strlit("centre");
    reveal_strlit("end");
    assert("middle"@[0] == 'm' && "start"@[0] == 's' && "end"@[0] == 'e');
    assert("begin"@[0] == 'b' && "beginning"@[0] == 'b' && "first"@[0] == 'f' && "head"@[0] == 'h');
    assert("mid"@[0] == 'm' && "center"@[0] == 'c' && "centre"@[0] == 'c');
}

proof fn lemma_at_position(s: Seq<char>, n: int)
    requires
        0 <= n <= s.len(),
        n < s.len() ==> s[n] == ':' || s[n] == '=',
        forall|i: int| 0 <= i < n ==> s[i] != ':' && s[i] != '=',
    ensures
        position(s, ':', '=') == n,
{
    lemma_position(s, ':', '=');
    let p = position(s, ':', '=') as int;
    if p < n {
        assert(s[p] != ':' && s[p] != '=');
    }
}

/// The words for a clip: none, a cube, a limit by the middle side, or every Nth frame. A time anchor
/// that stands behind `min` and `middle` goes before the default one, and a count behind `nth` before
/// the one that is set apart.
pub proof fn words_choose_the_clip(
    v: Seq<char>,
    rest: Seq<char>,
    nth: Option<usize>,
    anchor: Anchor,
    n: usize,
)
    requires
        rest.len() > 0,
        n >= 1,
    ensures
        ({
            let s = lower(trim(v));
            let c = parsed_clip(v, nth, anchor);
            &&& s == "none"@ ==> c == Ok::<Clip, Fault>(Clip::Whole)
            &&& s == "min"@ ==> c == Ok::<Clip, Fault>(Clip::Min(anchor))
            &&& s == "middle"@ ==> c == Ok::<Clip, Fault>(Clip::Middle(anchor))
            &&& s == "nth"@ && nth != Some(0usize) ==> c == Ok::<Clip, Fault>(Clip::Nth(nth))
            &&& s == "min"@ + seq![':'] + rest ==> (named_anchor(rest) matches Some(a) ==> c == Ok::<
                Clip,
                Fault,
            >(Clip::Min(a)))
            &&& s == "middle"@ + seq![':'] + rest ==> (named_anchor(rest) matches Some(a) ==> c
                == Ok::<Clip, Fault>(Clip::Middle(a)))
            &&& s == "nth"@ + seq![':'] + decimal(n as nat) ==> c == Ok::<Clip, Fault>(
                Clip::Nth(Some(n)),
            )
        }),
{
    let s = lower(trim(v));
    lemma_clip_words();
    if s == "none"@ || s == "min"@ || s == "middle"@ || s == "nth"@ {
        lemma_at_position(s, s.len() as int);
        assert(s.take(s.len() as int) =~= s);
    }
    if s == "min"@ + seq![':'] + rest {
        lemma_at_position(s, 3);
        assert(s.take(3) =~= "min"@);
        assert(s.skip(4) =~= rest);
    }
    if s == "middle"@ + seq![':'] + rest {
        lemma_at_position(s, 6);
        assert(s.take(6) =~= "middle"@);
        assert(s.skip(7) =~= rest);
    }
    let d = decimal(n as nat);
    if s == "nth"@ + seq![':'] + d {
        lemma_decimal_digits(n as nat);
        lemma_at_position(s, 3);
        assert(s.take(3) =~= "nth"@);
        assert(s.skip(4) =~= d);
        decimal_reads_back(n as nat, usize::MAX as nat);
    }
}

proof fn lemma_clip_words()
    ensures
        "none"@ == seq!['n', 'o', 'n', 'e'],
        "min"@ == seq!['m', 'i', 'n'],
        "middle"@ == seq!['m', 'i', 'd', 'd', 'l', 'e'],
        "nth"@ == seq!['n', 't', 'h'],
        "off"@.len() == 3 && "off"@[0] == 'o',
        "input"@.len() == 5,
        "cube"@.len() == 4 && "cube"@[0] == 'c',
        "mid"@.len() == 3 && "mid"@[2] == 'd',
        "median"@.len() == 6 && "median"@[1] == 'e',
{
    reveal_strlit("none");
    reveal_strlit("off");
    reveal_strlit("input");
    reveal_strlit("min");
    reveal_strlit("cube");
    reveal_strlit("middle");
    reveal_strlit("mid");
    reveal_strlit("median");
    reveal_strlit("nth");
    assert("none"@ =~= seq!['n', 'o', 'n', 'e']);
    assert("min"@ =~= seq!['m', 'i', 'n']);
    assert("middle"@ =~= seq!['m', 'i', 'd', 'd', 'l', 'e']);
    assert("nth"@ =~= seq!['n', 't', 'h']);
}

/// The clip is that of its own variable, with the time anchor and the count of theirs; by default the
/// whole input is used, and windows lie in the middle.
pub proof fn the_clip_is_set_by_its_variables(cfg: Config, env: Env, cpus: usize)
    requires
        cfg.rotates_as(env, cpus),
    ensures
        unset(env, "ROT_CLIP"@) ==> cfg.clip is Whole,
        forall|v: Seq<char>| #[trigger]
            given(env, "ROT_CLIP"@, v) && unset(env, "ROT_CLIP_TIME"@) && unset(env, "ROT_NTH"@)
                ==> parsed_clip(v, None, Anchor::Middle) == Ok::<Clip, Fault>(cfg.clip),
        forall|v: Seq<char>, t: Seq<char>|
            #![trigger given(env, "ROT_CLIP"@, v), given(env, "ROT_CLIP_TIME"@, t)]
            given(env, "ROT_CLIP"@, v) && given(env, "ROT_CLIP_TIME"@, t) && unset(
                env,
                "ROT_NTH"@,
            ) ==> (named_anchor(t) matches Some(a) && parsed_clip(v, None, a) == Ok::<Clip, Fault>(
                cfg.clip,
            )),
        forall|v: Seq<char>, n: usize|
            #![trigger given(env, "ROT_CLIP"@, v), given(env, "ROT_NTH"@, decimal(n as nat))]
            given(env, "ROT_CLIP"@, v) && given(env, "ROT_NTH"@, decimal(n as nat)) && unset(
                env,
                "ROT_CLIP_TIME"@,
            ) ==> parsed_clip(v, Some(n), Anchor::Middle) == Ok::<Clip, Fault>(cfg.clip),
{
    lemma_setting(env, "ROT_CLIP"@);
    lemma_setting(env, "ROT_CLIP_TIME"@);
    lemma_setting(env, "ROT_NTH"@);
    lemma_clip_words();
    let (m, o) = ("middle"@, "none"@);
    lemma_trimmed_already(m);
    lemma_trimmed_already(o);
    assert(lower(m) =~= m);
    assert(lower(o) =~= o);
    words_choose_the_anchor(m);
    assert(named_anchor(m) == Some(Anchor::Middle));
    if unset(env, "ROT_CLIP"@) {
        let nth = env.count("ROT_NTH"@);
        let a = env.clip_time();
        assert(nth is Ok && a is Ok);
        words_choose_the_clip(o, m, nth->Ok_0, a->Ok_0, 1);
    }
    assert forall|v: Seq<char>, n: usize|
        #![trigger given(env, "ROT_CLIP"@, v), given(env, "ROT_NTH"@, decimal(n as nat))]
        given(env, "ROT_CLIP"@, v) && given(env, "ROT_NTH"@, decimal(n as nat)) && unset(
            env,
            "ROT_CLIP_TIME"@,
        ) implies parsed_clip(v, Some(n), Anchor::Middle) == Ok::<Clip, Fault>(cfg.clip) by {
        decimal_reads_back(n as nat, usize::MAX as nat);
    }
}

/// A letter names an axis.
pub open spec fn names_axis(c: char, a: Axis) -> bool {
    match a {
        Axis::X => c == 'x',
        Axis::Y => c == 'y',
        Axis::Z => c == 'z',
    }
}

/// The order of the rotations is that of the letters in its variable, and X, Y, Z by default.
pub proof fn letters_choose_the_order(cfg: Config, env: Env, cpus: usize)
    requires
        cfg.rotates_as(env, cpus),
    ensures
        unset(env, "ROT_ORDER"@) ==> cfg.order[0] is X && cfg.order[1] is Y && cfg.order[2] is Z,
        forall|v: Seq<char>| #[trigger]
            given(env, "ROT_ORDER"@, v) ==> {
                let t = lower(trim(v));
                &&& t.len() == 3
                &&& names_axis(t[0], cfg.order[0])
                &&& names_axis(t[1], cfg.order[1])
                &&& names_axis(t[2], cfg.order[2])
            },
{
    lemma_setting(env, "ROT_ORDER"@);
    reveal_strlit("xyz");
    let t = "xyz"@;
    lemma_trimmed_already(t);
    assert(lower(t) =~= t);
}

/// The output size is that of its variable, and the bounding box by default: `fit`, `crop`, or three
/// numbers with an `x` between them.
pub proof fn words_choose_the_output(
    cfg: Config,
    env: Env,
    cpus: usize,
    v: Seq<char>,
    w: usize,
    h: usize,
    d: usize,
)
    requires
        cfg.rotates_as(env, cpus),
        w > 0,
        h > 0,
        d > 0,
    ensures
        unset(env, "ROT_OUTPUT"@) ==> cfg.output is Fit,
        given(env, "ROT_OUTPUT"@, v) && lower(trim(v)) == "fit"@ ==> cfg.output is Fit,
        given(env, "ROT_OUTPUT"@, v) && lower(trim(v)) == "crop"@ ==> cfg.output is Crop,
        given(env, "ROT_OUTPUT"@, v) && lower(trim(v)) == decimal(w as nat).push('x') + decimal(
            h as nat,
        ).push('x') + decimal(d as nat) ==> (cfg.output matches OutputSize::Custom(s) && s[0]
            == DimSpec::Exact(w) && s[1] == DimSpec::Exact(h) && s[2] == DimSpec::Exact(d)),
{
    lemma_setting(env, "ROT_OUTPUT"@);
    lemma_output_words();
    let f = "fit"@;
    lemma_trimmed_already(f);
    assert(lower(f) =~= f);
    let (a, b, c) = (decimal(w as nat), decimal(h as nat), decimal(d as nat));
    let t = a.push('x') + b.push('x') + c;
    if given(env, "ROT_OUTPUT"@, v) && lower(trim(v)) == t {
        lemma_side_word(w);
        lemma_side_word(h);
        lemma_side_word(d);
        lemma_one_piece(a, 'x');
        lemma_last_piece(a, 'x', b);
        let ab = a.push('x') + b;
        lemma_last_piece(ab, 'x', c);
        assert(ab.push('x') + c =~= t);
        let p = pieces(t, 'x');
        assert(p =~= seq![a, b, c]);
        assert(digit(a[0]));
        assert(t[0] == a[0]);
    }
}

proof fn lemma_output_words()
    ensures
        "fit"@ == seq!['f', 'i', 't'],
        "crop"@ == seq!['c', 'r', 'o', 'p'],
        "bbox"@.len() == 4 && "bbox"@[0] == 'b',
        "auto"@.len() == 4 && "auto"@[0] == 'a',
        "input"@.len() == 5 && "input"@[0] == 'i',
        "same"@.len() == 4 && "same"@[0] == 's',
{
    reveal_strlit("fit");
    reveal_strlit("crop");
    reveal_strlit("bbox");
    reveal_strlit("auto");
    reveal_strlit("input");
    reveal_strlit("same");
    assert("fit"@ =~= seq!['f', 'i', 't']);
    assert("crop"@ =~= seq!['c', 'r', 'o', 'p']);
}

/// A positive number as a side.
proof fn lemma_side_word(n: usize)
    requires
        n > 0,
    ensures
        named_dim(decimal(n as nat)) == Some(DimSpec::Exact(n)),
        decimal(n as nat).len() > 0,
        forall|i: int|
            0 <= i < decimal(n as nat).len() ==> digit(#[trigger] decimal(n as nat)[i]) && decimal(
                n as nat,
            )[i] != 'x',
{
    let t = decimal(n as nat);
    lemma_decimal_digits(n as nat);
    decimal_reads_back(n as nat, usize::MAX as nat);
    assert(digit(t[0]) && digit(t[t.len() - 1]));
    lemma_trimmed_already(t);
    lemma_output_words();
    reveal_strlit("0");
    reveal_strlit("-1");
    reveal_strlit("in");
    assert("-1"@[0] == '-' && "in"@[0] == 'i');
    if t == "0"@ {
        decimal_reads_back(0, usize::MAX as nat);
        assert(decimal(0) =~= "0"@);
    }
}

} // verus!
