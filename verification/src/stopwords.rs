//! The English stop words the index builder uses by default.
use vstd::prelude::*;

verus! {

/// Part 0 of the English stop-word list.
pub open spec fn stop_lines_part_0() -> Seq<Seq<char>> {
    seq![
        "a"@,
        "a's"@,
        "able"@,
        "about"@,
        "above"@,
        "according"@,
        "accordingly"@,
        "across"@,
        "actually"@,
        "after"@,
        "afterwards"@,
        "again"@,
        "against"@,
        "ain't"@,
        "all"@,
        "allow"@,
        "allows"@,
        "almost"@,
        "alone"@,
        "along"@,
        "already"@,
        "also"@,
        "although"@,
        "always"@,
        "am"@,
        "among"@,
        "amongst"@,
        "an"@,
        "and"@,
        "another"@,
        "any"@,
        "anybody"@,
        "anyhow"@,
        "anyone"@,
        "anything"@,
        "anyway"@,
        "anyways"@,
        "anywhere"@,
        "apart"@,
        "appear"@,
        "appreciate"@,
        "appropriate"@,
        "are"@,
        "aren't"@,
        "around"@,
        "as"@,
        "aside"@,
        "ask"@
    ]
}

fn push_part_0(r: &mut Vec<String>)
    ensures
        final(r)@.map_values(|s: String| s@) == old(r)@.map_values(|s: String| s@) + stop_lines_part_0(),
{
    let ghost start = r@.map_values(|s: String| s@);
    r.push("a".to_owned());
    r.push("a's".to_owned());
    r.push("able".to_owned());
    r.push("about".to_owned());
    r.push("above".to_owned());
    r.push("according".to_owned());
    r.push("accordingly".to_owned());
    r.push("across".to_owned());
    r.push("actually".to_owned());
    r.push("after".to_owned());
    r.push("afterwards".to_owned());
    r.push("again".to_owned());
    r.push("against".to_owned());
    r.push("ain't".to_owned());
    r.push("all".to_owned());
    r.push("allow".to_owned());
    r.push("allows".to_owned());
    r.push("almost".to_owned());
    r.push("alone".to_owned());
    r.push("along".to_owned());
    r.push("already".to_owned());
    r.push("also".to_owned());
    r.push("although".to_owned());
    r.push("always".to_owned());
    r.push("am".to_owned());
    r.push("among".to_owned());
    r.push("amongst".to_owned());
    r.push("an".to_owned());
    r.push("and".to_owned());
    r.push("another".to_owned());
    r.push("any".to_owned());
    r.push("anybody".to_owned());
    r.push("anyhow".to_owned());
    r.push("anyone".to_owned());
    r.push("anything".to_owned());
    r.push("anyway".to_owned());
    r.push("anyways".to_owned());
    r.push("anywhere".to_owned());
    r.push("apart".to_owned());
    r.push("appear".to_owned());
    r.push("appreciate".to_owned());
    r.push("appropriate".to_owned());
    r.push("are".to_owned());
    r.push("aren't".to_owned());
    r.push("around".to_owned());
    r.push("as".to_owned());
    r.push("aside".to_owned());
    r.push("ask".to_owned());
    assert(r@.map_values(|s: String| s@) =~= start + stop_lines_part_0());
}

/// Part 1 of the English stop-word list.
pub open spec fn stop_lines_part_1() -> Seq<Seq<char>> {
    seq![
        "asking"@,
        "associated"@,
        "at"@,
        "available"@,
        "away"@,
        "awfully"@,
        "b"@,
        "be"@,
        "became"@,
        "because"@,
        "become"@,
        "becomes"@,
        "becoming"@,
        "been"@,
        "before"@,
        "beforehand"@,
        "behind"@,
        "being"@,
        "believe"@,
        "below"@,
        "beside"@,
        "besides"@,
        "best"@,
        "better"@,
        "between"@,
        "beyond"@,
        "both"@,
        "brief"@,
        "but"@,
        "by"@,
        "c"@,
        "c'mon"@,
        "c's"@,
        "came"@,
        "can"@,
        "can't"@,
        "cannot"@,
        "cant"@,
        "cause"@,
        "causes"@,
        "certain"@,
        "certainly"@,
        "changes"@,
        "clearly"@,
        "co"@,
        "com"@,
        "come"@,
        "comes"@
    ]
}

fn push_part_1(r: &mut Vec<String>)
    ensures
        final(r)@.map_values(|s: String| s@) == old(r)@.map_values(|s: String| s@) + stop_lines_part_1(),
{
    let ghost start = r@.map_values(|s: String| s@);
    r.push("asking".to_owned());
    r.push("associated".to_owned());
    r.push("at".to_owned());
    r.push("available".to_owned());
    r.push("away".to_owned());
    r.push("awfully".to_owned());
    r.push("b".to_owned());
    r.push("be".to_owned());
    r.push("became".to_owned());
    r.push("because".to_owned());
    r.push("become".to_owned());
    r.push("becomes".to_owned());
    r.push("becoming".to_owned());
    r.push("been".to_owned());
    r.push("before".to_owned());
    r.push("beforehand".to_owned());
    r.push("behind".to_owned());
    r.push("being".to_owned());
    r.push("believe".to_owned());
    r.push("below".to_owned());
    r.push("beside".to_owned());
    r.push("besides".to_owned());
    r.push("best".to_owned());
    r.push("better".to_owned());
    r.push("between".to_owned());
    r.push("beyond".to_owned());
    r.push("both".to_owned());
    r.push("brief".to_owned());
    r.push("but".to_owned());
    r.push("by".to_owned());
    r.push("c".to_owned());
    r.push("c'mon".to_owned());
    r.push("c's".to_owned());
    r.push("came".to_owned());
    r.push("can".to_owned());
    r.push("can't".to_owned());
    r.push("cannot".to_owned());
    r.push("cant".to_owned());
    r.push("cause".to_owned());
    r.push("causes".to_owned());
    r.push("certain".to_owned());
    r.push("certainly".to_owned());
    r.push("changes".to_owned());
    r.push("clearly".to_owned());
    r.push("co".to_owned());
    r.push("com".to_owned());
    r.push("come".to_owned());
    r.push("comes".to_owned());
    assert(r@.map_values(|s: String| s@) =~= start + stop_lines_part_1());
}

/// Part 2 of the English stop-word list.
pub open spec fn stop_lines_part_2() -> Seq<Seq<char>> {
    seq![
        "concerning"@,
        "consequently"@,
        "consider"@,
        "considering"@,
        "contain"@,
        "containing"@,
        "contains"@,
        "corresponding"@,
        "could"@,
        "couldn't"@,
        "course"@,
        "currently"@,
        "d"@,
        "definitely"@,
        "described"@,
        "despite"@,
        "did"@,
        "didn't"@,
        "different"@,
        "do"@,
        "does"@,
        "doesn't"@,
        "doing"@,
        "don't"@,
        "done"@,
        "down"@,
        "downwards"@,
        "during"@,
        "e"@,
        "each"@,
        "edu"@,
        "eg"@,
        "eight"@,
        "either"@,
        "else"@,
        "elsewhere"@,
        "enough"@,
        "entirely"@,
        "especially"@,
        "et"@,
        "etc"@,
        "even"@,
        "ever"@,
        "every"@,
        "everybody"@,
        "everyone"@,
        "everything"@,
        "everywhere"@
    ]
}

fn push_part_2(r: &mut Vec<String>)
    ensures
        final(r)@.map_values(|s: String| s@) == old(r)@.map_values(|s: String| s@) + stop_lines_part_2(),
{
    let ghost start = r@.map_values(|s: String| s@);
    r.push("concerning".to_owned());
    r.push("consequently".to_owned());
    r.push("consider".to_owned());
    r.push("considering".to_owned());
    r.push("contain".to_owned());
    r.push("containing".to_owned());
    r.push("contains".to_owned());
    r.push("corresponding".to_owned());
    r.push("could".to_owned());
    r.push("couldn't".to_owned());
    r.push("course".to_owned());
    r.push("currently".to_owned());
    r.push("d".to_owned());
    r.push("definitely".to_owned());
    r.push("described".to_owned());
    r.push("despite".to_owned());
    r.push("did".to_owned());
    r.push("didn't".to_owned());
    r.push("different".to_owned());
    r.push("do".to_owned());
    r.push("does".to_owned());
    r.push("doesn't".to_owned());
    r.push("doing".to_owned());
    r.push("don't".to_owned());
    r.push("done".to_owned());
    r.push("down".to_owned());
    r.push("downwards".to_owned());
    r.push("during".to_owned());
    r.push("e".to_owned());
    r.push("each".to_owned());
    r.push("edu".to_owned());
    r.push("eg".to_owned());
    r.push("eight".to_owned());
    r.push("either".to_owned());
    r.push("else".to_owned());
    r.push("elsewhere".to_owned());
    r.push("enough".to_owned());
    r.push("entirely".to_owned());
    r.push("especially".to_owned());
    r.push("et".to_owned());
    r.push("etc".to_owned());
    r.push("even".to_owned());
    r.push("ever".to_owned());
    r.push("every".to_owned());
    r.push("everybody".to_owned());
    r.push("everyone".to_owned());
    r.push("everything".to_owned());
    r.push("everywhere".to_owned());
    assert(r@.map_values(|s: String| s@) =~= start + stop_lines_part_2());
}

/// Part 3 of the English stop-word list.
pub open spec fn stop_lines_part_3() -> Seq<Seq<char>> {
    seq![
        "ex"@,
        "exactly"@,
        "example"@,
        "except"@,
        "f"@,
        "far"@,
        "few"@,
        "fifth"@,
        "first"@,
        "five"@,
        "followed"@,
        "following"@,
        "follows"@,
        "for"@,
        "former"@,
        "formerly"@,
        "forth"@,
        "four"@,
        "from"@,
        "further"@,
        "furthermore"@,
        "g"@,
        "get"@,
        "gets"@,
        "getting"@,
        "given"@,
        "gives"@,
        "go"@,
        "goes"@,
        "going"@,
        "gone"@,
        "got"@,
        "gotten"@,
        "greetings"@,
        "h"@,
        "had"@,
        "hadn't"@,
        "happens"@,
        "hardly"@,
        "has"@,
        "hasn't"@,
        "have"@,
        "haven't"@,
        "having"@,
        "he"@,
        "he's"@,
        "hello"@,
        "help"@
    ]
}

fn push_part_3(r: &mut Vec<String>)
    ensures
        final(r)@.map_values(|s: String| s@) == old(r)@.map_values(|s: String| s@) + stop_lines_part_3(),
{
    let ghost start = r@.map_values(|s: String| s@);
    r.push("ex".to_owned());
    r.push("exactly".to_owned());
    r.push("example".to_owned());
    r.push("except".to_owned());
    r.push("f".to_owned());
    r.push("far".to_owned());
    r.push("few".to_owned());
    r.push("fifth".to_owned());
    r.push("first".to_owned());
    r.push("five".to_owned());
    r.push("followed".to_owned());
    r.push("following".to_owned());
    r.push("follows".to_owned());
    r.push("for".to_owned());
    r.push("former".to_owned());
    r.push("formerly".to_owned());
    r.push("forth".to_owned());
    r.push("four".to_owned());
    r.push("from".to_owned());
    r.push("further".to_owned());
    r.push("furthermore".to_owned());
    r.push("g".to_owned());
    r.push("get".to_owned());
    r.push("gets".to_owned());
    r.push("getting".to_owned());
    r.push("given".to_owned());
    r.push("gives".to_owned());
    r.push("go".to_owned());
    r.push("goes".to_owned());
    r.push("going".to_owned());
    r.push("gone".to_owned());
    r.push("got".to_owned());
    r.push("gotten".to_owned());
    r.push("greetings".to_owned());
    r.push("h".to_owned());
    r.push("had".to_owned());
    r.push("hadn't".to_owned());
    r.push("happens".to_owned());
    r.push("hardly".to_owned());
    r.push("has".to_owned());
    r.push("hasn't".to_owned());
    r.push("have".to_owned());
    r.push("haven't".to_owned());
    r.push("having".to_owned());
    r.push("he".to_owned());
    r.push("he's".to_owned());
    r.push("hello".to_owned());
    r.push("help".to_owned());
    assert(r@.map_values(|s: String| s@) =~= start + stop_lines_part_3());
}

/// Part 4 of the English stop-word list.
pub open spec fn stop_lines_part_4() -> Seq<Seq<char>> {
    seq![
        "hence"@,
        "her"@,
        "here"@,
        "here's"@,
        "hereafter"@,
        "hereby"@,
        "herein"@,
        "hereupon"@,
        "hers"@,
        "herself"@,
        "hi"@,
        "him"@,
        "himself"@,
        "his"@,
        "hither"@,
        "hopefully"@,
        "how"@,
        "howbeit"@,
        "however"@,
        "i"@,
        "i'd"@,
        "i'll"@,
        "i'm"@,
        "i've"@,
        "ie"@,
        "if"@,
        "ignored"@,
        "immediate"@,
        "in"@,
        "inasmuch"@,
        "inc"@,
        "indeed"@,
        "indicate"@,
        "indicated"@,
        "indicates"@,
        "inner"@,
        "insofar"@,
        "instead"@,
        "into"@,
        "inward"@,
        "is"@,
        "isn't"@,
        "it"@,
        "it'd"@,
        "it'll"@,
        "it's"@,
        "its"@,
        "itself"@
    ]
}

fn push_part_4(r: &mut Vec<String>)
    ensures
        final(r)@.map_values(|s: String| s@) == old(r)@.map_values(|s: String| s@) + stop_lines_part_4(),
{
    let ghost start = r@.map_values(|s: String| s@);
    r.push("hence".to_owned());
    r.push("her".to_owned());
    r.push("here".to_owned());
    r.push("here's".to_owned());
    r.push("hereafter".to_owned());
    r.push("hereby".to_owned());
    r.push("herein".to_owned());
    r.push("hereupon".to_owned());
    r.push("hers".to_owned());
    r.push("herself".to_owned());
    r.push("hi".to_owned());
    r.push("him".to_owned());
    r.push("himself".to_owned());
    r.push("his".to_owned());
    r.push("hither".to_owned());
    r.push("hopefully".to_owned());
    r.push("how".to_owned());
    r.push("howbeit".to_owned());
    r.push("however".to_owned());
    r.push("i".to_owned());
    r.push("i'd".to_owned());
    r.push("i'll".to_owned());
    r.push("i'm".to_owned());
    r.push("i've".to_owned());
    r.push("ie".to_owned());
    r.push("if".to_owned());
    r.push("ignored".to_owned());
    r.push("immediate".to_owned());
    r.push("in".to_owned());
    r.push("inasmuch".to_owned());
    r.push("inc".to_owned());
    r.push("indeed".to_owned());
    r.push("indicate".to_owned());
    r.push("indicated".to_owned());
    r.push("indicates".to_owned());
    r.push("inner".to_owned());
    r.push("insofar".to_owned());
    r.push("instead".to_owned());
    r.push("into".to_owned());
    r.push("inward".to_owned());
    r.push("is".to_owned());
    r.push("isn't".to_owned());
    r.push("it".to_owned());
    r.push("it'd".to_owned());
    r.push("it'll".to_owned());
    r.push("it's".to_owned());
    r.push("its".to_owned());
    r.push("itself".to_owned());
    assert(r@.map_values(|s: String| s@) =~= start + stop_lines_part_4());
}

/// Part 5 of the English stop-word list.
pub open spec fn stop_lines_part_5() -> Seq<Seq<char>> {
    seq![
        "j"@,
        "just"@,
        "k"@,
        "keep"@,
        "keeps"@,
        "kept"@,
        "know"@,
        "knows"@,
        "known"@,
        "l"@,
        "last"@,
        "lately"@,
        "later"@,
        "latter"@,
        "latterly"@,
        "least"@,
        "less"@,
        "lest"@,
        "let"@,
        "let's"@,
        "like"@,
        "liked"@,
        "likely"@,
        "little"@,
        "look"@,
        "looking"@,
        "looks"@,
        "ltd"@,
        "m"@,
        "mainly"@,
        "many"@,
        "may"@,
        "maybe"@,
        "me"@,
        "mean"@,
        "meanwhile"@,
        "merely"@,
        "might"@,
        "more"@,
        "moreover"@,
        "most"@,
        "mostly"@,
        "much"@,
        "must"@,
        "my"@,
        "myself"@,
        "n"@,
        "name"@
    ]
}

fn push_part_5(r: &mut Vec<String>)
    ensures
        final(r)@.map_values(|s: String| s@) == old(r)@.map_values(|s: String| s@) + stop_lines_part_5(),
{
    let ghost start = r@.map_values(|s: String| s@);
    r.push("j".to_owned());
    r.push("just".to_owned());
    r.push("k".to_owned());
    r.push("keep".to_owned());
    r.push("keeps".to_owned());
    r.push("kept".to_owned());
    r.push("know".to_owned());
    r.push("knows".to_owned());
    r.push("known".to_owned());
    r.push("l".to_owned());
    r.push("last".to_owned());
    r.push("lately".to_owned());
    r.push("later".to_owned());
    r.push("latter".to_owned());
    r.push("latterly".to_owned());
    r.push("least".to_owned());
    r.push("less".to_owned());
    r.push("lest".to_owned());
    r.push("let".to_owned());
    r.push("let's".to_owned());
    r.push("like".to_owned());
    r.push("liked".to_owned());
    r.push("likely".to_owned());
    r.push("little".to_owned());
    r.push("look".to_owned());
    r.push("looking".to_owned());
    r.push("looks".to_owned());
    r.push("ltd".to_owned());
    r.push("m".to_owned());
    r.push("mainly".to_owned());
    r.push("many".to_owned());
    r.push("may".to_owned());
    r.push("maybe".to_owned());
    r.push("me".to_owned());
    r.push("mean".to_owned());
    r.push("meanwhile".to_owned());
    r.push("merely".to_owned());
    r.push("might".to_owned());
    r.push("more".to_owned());
    r.push("moreover".to_owned());
    r.push("most".to_owned());
    r.push("mostly".to_owned());
    r.push("much".to_owned());
    r.push("must".to_owned());
    r.push("my".to_owned());
    r.push("myself".to_owned());
    r.push("n".to_owned());
    r.push("name".to_owned());
    assert(r@.map_values(|s: String| s@) =~= start + stop_lines_part_5());
}

/// Part 6 of the English stop-word list.
pub open spec fn stop_lines_part_6() -> Seq<Seq<char>> {
    seq![
        "namely"@,
        "nd"@,
        "near"@,
        "nearly"@,
        "necessary"@,
        "need"@,
        "needs"@,
        "neither"@,
        "never"@,
        "nevertheless"@,
        "new"@,
        "next"@,
        "nine"@,
        "no"@,
        "nobody"@,
        "non"@,
        "none"@,
        "noone"@,
        "nor"@,
        "normally"@,
        "not"@,
        "nothing"@,
        "novel"@,
        "now"@,
        "nowhere"@,
        "o"@,
        "obviously"@,
        "of"@,
        "off"@,
        "often"@,
        "oh"@,
        "ok"@,
        "okay"@,
        "old"@,
        "on"@,
        "once"@,
        "one"@,
        "ones"@,
        "only"@,
        "onto"@,
        "or"@,
        "other"@,
        "others"@,
        "otherwise"@,
        "ought"@,
        "our"@,
        "ours"@,
        "ourselves"@
    ]
}

fn push_part_6(r: &mut Vec<String>)
    ensures
        final(r)@.map_values(|s: String| s@) == old(r)@.map_values(|s: String| s@) + stop_lines_part_6(),
{
    let ghost start = r@.map_values(|s: String| s@);
    r.push("namely".to_owned());
    r.push("nd".to_owned());
    r.push("near".to_owned());
    r.push("nearly".to_owned());
    r.push("necessary".to_owned());
    r.push("need".to_owned());
    r.push("needs".to_owned());
    r.push("neither".to_owned());
    r.push("never".to_owned());
    r.push("nevertheless".to_owned());
    r.push("new".to_owned());
    r.push("next".to_owned());
    r.push("nine".to_owned());
    r.push("no".to_owned());
    r.push("nobody".to_owned());
    r.push("non".to_owned());
    r.push("none".to_owned());
    r.push("noone".to_owned());
    r.push("nor".to_owned());
    r.push("normally".to_owned());
    r.push("not".to_owned());
    r.push("nothing".to_owned());
    r.push("novel".to_owned());
    r.push("now".to_owned());
    r.push("nowhere".to_owned());
    r.push("o".to_owned());
    r.push("obviously".to_owned());
    r.push("of".to_owned());
    r.push("off".to_owned());
    r.push("often".to_owned());
    r.push("oh".to_owned());
    r.push("ok".to_owned());
    r.push("okay".to_owned());
    r.push("old".to_owned());
    r.push("on".to_owned());
    r.push("once".to_owned());
    r.push("one".to_owned());
    r.push("ones".to_owned());
    r.push("only".to_owned());
    r.push("onto".to_owned());
    r.push("or".to_owned());
    r.push("other".to_owned());
    r.push("others".to_owned());
    r.push("otherwise".to_owned());
    r.push("ought".to_owned());
    r.push("our".to_owned());
    r.push("ours".to_owned());
    r.push("ourselves".to_owned());
    assert(r@.map_values(|s: String| s@) =~= start + stop_lines_part_6());
}

/// Part 7 of the English stop-word list.
pub open spec fn stop_lines_part_7() -> Seq<Seq<char>> {
    seq![
        "out"@,
        "outside"@,
        "over"@,
        "overall"@,
        "own"@,
        "p"@,
        "particular"@,
        "particularly"@,
        "per"@,
        "perhaps"@,
        "placed"@,
        "please"@,
        "plus"@,
        "possible"@,
        "presumably"@,
        "probably"@,
        "provides"@,
        "q"@,
        "que"@,
        "quite"@,
        "qv"@,
        "r"@,
        "rather"@,
        "rd"@,
        "re"@,
        "really"@,
        "reasonably"@,
        "regarding"@,
        "regardless"@,
        "regards"@,
        "relatively"@,
        "respectively"@,
        "right"@,
        "s"@,
        "said"@,
        "same"@,
        "saw"@,
        "say"@,
        "saying"@,
        "says"@,
        "second"@,
        "secondly"@,
        "see"@,
        "seeing"@,
        "seem"@,
        "seemed"@,
        "seeming"@,
        "seems"@
    ]
}

fn push_part_7(r: &mut Vec<String>)
    ensures
        final(r)@.map_values(|s: String| s@) == old(r)@.map_values(|s: String| s@) + stop_lines_part_7(),
{
    let ghost start = r@.map_values(|s: String| s@);
    r.push("out".to_owned());
    r.push("outside".to_owned());
    r.push("over".to_owned());
    r.push("overall".to_owned());
    r.push("own".to_owned());
    r.push("p".to_owned());
    r.push("particular".to_owned());
    r.push("particularly".to_owned());
    r.push("per".to_owned());
    r.push("perhaps".to_owned());
    r.push("placed".to_owned());
    r.push("please".to_owned());
    r.push("plus".to_owned());
    r.push("possible".to_owned());
    r.push("presumably".to_owned());
    r.push("probably".to_owned());
    r.push("provides".to_owned());
    r.push("q".to_owned());
    r.push("que".to_owned());
    r.push("quite".to_owned());
    r.push("qv".to_owned());
    r.push("r".to_owned());
    r.push("rather".to_owned());
    r.push("rd".to_owned());
    r.push("re".to_owned());
    r.push("really".to_owned());
    r.push("reasonably".to_owned());
    r.push("regarding".to_owned());
    r.push("regardless".to_owned());
    r.push("regards".to_owned());
    r.push("relatively".to_owned());
    r.push("respectively".to_owned());
    r.push("right".to_owned());
    r.push("s".to_owned());
    r.push("said".to_owned());
    r.push("same".to_owned());
    r.push("saw".to_owned());
    r.push("say".to_owned());
    r.push("saying".to_owned());
    r.push("says".to_owned());
    r.push("second".to_owned());
    r.push("secondly".to_owned());
    r.push("see".to_owned());
    r.push("seeing".to_owned());
    r.push("seem".to_owned());
    r.push("seemed".to_owned());
    r.push("seeming".to_owned());
    r.push("seems".to_owned());
    assert(r@.map_values(|s: String| s@) =~= start + stop_lines_part_7());
}

/// Part 8 of the English stop-word list.
pub open spec fn stop_lines_part_8() -> Seq<Seq<char>> {
    seq![
        "seen"@,
        "self"@,
        "selves"@,
        "sensible"@,
        "sent"@,
        "serious"@,
        "seriously"@,
        "seven"@,
        "several"@,
        "shall"@,
        "she"@,
        "should"@,
        "shouldn't"@,
        "since"@,
        "six"@,
        "so"@,
        "some"@,
        "somebody"@,
        "somehow"@,
        "someone"@,
        "something"@,
        "sometime"@,
        "sometimes"@,
        "somewhat"@,
        "somewhere"@,
        "soon"@,
        "sorry"@,
        "specified"@,
        "specify"@,
        "specifying"@,
        "still"@,
        "sub"@,
        "such"@,
        "sup"@,
        "sure"@,
        "t"@,
        "t's"@,
        "take"@,
        "taken"@,
        "tell"@,
        "tends"@,
        "th"@,
        "than"@,
        "thank"@,
        "thanks"@,
        "thanx"@,
        "that"@,
        "that's"@
    ]
}

fn push_part_8(r: &mut Vec<String>)
    ensures
        final(r)@.map_values(|s: String| s@) == old(r)@.map_values(|s: String| s@) + stop_lines_part_8(),
{
    let ghost start = r@.map_values(|s: String| s@);
    r.push("seen".to_owned());
    r.push("self".to_owned());
    r.push("selves".to_owned());
    r.push("sensible".to_owned());
    r.push("sent".to_owned());
    r.push("serious".to_owned());
    r.push("seriously".to_owned());
    r.push("seven".to_owned());
    r.push("several".to_owned());
    r.push("shall".to_owned());
    r.push("she".to_owned());
    r.push("should".to_owned());
    r.push("shouldn't".to_owned());
    r.push("since".to_owned());
    r.push("six".to_owned());
    r.push("so".to_owned());
    r.push("some".to_owned());
    r.push("somebody".to_owned());
    r.push("somehow".to_owned());
    r.push("someone".to_owned());
    r.push("something".to_owned());
    r.push("sometime".to_owned());
    r.push("sometimes".to_owned());
    r.push("somewhat".to_owned());
    r.push("somewhere".to_owned());
    r.push("soon".to_owned());
    r.push("sorry".to_owned());
    r.push("specified".to_owned());
    r.push("specify".to_owned());
    r.push("specifying".to_owned());
    r.push("still".to_owned());
    r.push("sub".to_owned());
    r.push("such".to_owned());
    r.push("sup".to_owned());
    r.push("sure".to_owned());
    r.push("t".to_owned());
    r.push("t's".to_owned());
    r.push("take".to_owned());
    r.push("taken".to_owned());
    r.push("tell".to_owned());
    r.push("tends".to_owned());
    r.push("th".to_owned());
    r.push("than".to_owned());
    r.push("thank".to_owned());
    r.push("thanks".to_owned());
    r.push("thanx".to_owned());
    r.push("that".to_owned());
    r.push("that's".to_owned());
    assert(r@.map_values(|s: String| s@) =~= start + stop_lines_part_8());
}

/// Part 9 of the English stop-word list.
pub open spec fn stop_lines_part_9() -> Seq<Seq<char>> {
    seq![
        "thats"@,
        "the"@,
        "their"@,
        "theirs"@,
        "them"@,
        "themselves"@,
        "then"@,
        "thence"@,
        "there"@,
        "there's"@,
        "thereafter"@,
        "thereby"@,
        "therefore"@,
        "therein"@,
        "theres"@,
        "thereupon"@,
        "these"@,
        "they"@,
        "they'd"@,
        "they'll"@,
        "they're"@,
        "they've"@,
        "think"@,
        "third"@,
        "this"@,
        "thorough"@,
        "thoroughly"@,
        "those"@,
        "though"@,
        "three"@,
        "through"@,
        "throughout"@,
        "thru"@,
        "thus"@,
        "to"@,
        "together"@,
        "too"@,
        "took"@,
        "toward"@,
        "towards"@,
        "tried"@,
        "tries"@,
        "truly"@,
        "try"@,
        "trying"@,
        "twice"@,
        "two"@,
        "u"@
    ]
}

fn push_part_9(r: &mut Vec<String>)
    ensures
        final(r)@.map_values(|s: String| s@) == old(r)@.map_values(|s: String| s@) + stop_lines_part_9(),
{
    let ghost start = r@.map_values(|s: String| s@);
    r.push("thats".to_owned());
    r.push("the".to_owned());
    r.push("their".to_owned());
    r.push("theirs".to_owned());
    r.push("them".to_owned());
    r.push("themselves".to_owned());
    r.push("then".to_owned());
    r.push("thence".to_owned());
    r.push("there".to_owned());
    r.push("there's".to_owned());
    r.push("thereafter".to_owned());
    r.push("thereby".to_owned());
    r.push("therefore".to_owned());
    r.push("therein".to_owned());
    r.push("theres".to_owned());
    r.push("thereupon".to_owned());
    r.push("these".to_owned());
    r.push("they".to_owned());
    r.push("they'd".to_owned());
    r.push("they'll".to_owned());
    r.push("they're".to_owned());
    r.push("they've".to_owned());
    r.push("think".to_owned());
    r.push("third".to_owned());
    r.push("this".to_owned());
    r.push("thorough".to_owned());
    r.push("thoroughly".to_owned());
    r.push("those".to_owned());
    r.push("though".to_owned());
    r.push("three".to_owned());
    r.push("through".to_owned());
    r.push("throughout".to_owned());
    r.push("thru".to_owned());
    r.push("thus".to_owned());
    r.push("to".to_owned());
    r.push("together".to_owned());
    r.push("too".to_owned());
    r.push("took".to_owned());
    r.push("toward".to_owned());
    r.push("towards".to_owned());
    r.push("tried".to_owned());
    r.push("tries".to_owned());
    r.push("truly".to_owned());
    r.push("try".to_owned());
    r.push("trying".to_owned());
    r.push("twice".to_owned());
    r.push("two".to_owned());
    r.push("u".to_owned());
    assert(r@.map_values(|s: String| s@) =~= start + stop_lines_part_9());
}

/// Part 10 of the English stop-word list.
pub open spec fn stop_lines_part_10() -> Seq<Seq<char>> {
    seq![
        "un"@,
        "under"@,
        "unfortunately"@,
        "unless"@,
        "unlikely"@,
        "until"@,
        "unto"@,
        "up"@,
        "upon"@,
        "us"@,
        "use"@,
        "used"@,
        "useful"@,
        "uses"@,
        "using"@,
        "usually"@,
        "uucp"@,
        "v"@,
        "value"@,
        "various"@,
        "very"@,
        "via"@,
        "viz"@,
        "vs"@,
        "w"@,
        "want"@,
        "wants"@,
        "was"@,
        "wasn't"@,
        "way"@,
        "we"@,
        "we'd"@,
        "we'll"@,
        "we're"@,
        "we've"@,
        "welcome"@,
        "well"@,
        "went"@,
        "were"@,
        "weren't"@,
        "what"@,
        "what's"@,
        "whatever"@,
        "when"@,
        "whence"@,
        "whenever"@,
        "where"@,
        "where's"@
    ]
}

fn push_part_10(r: &mut Vec<String>)
    ensures
        final(r)@.map_values(|s: String| s@) == old(r)@.map_values(|s: String| s@) + stop_lines_part_10(),
{
    let ghost start = r@.map_values(|s: String| s@);
    r.push("un".to_owned());
    r.push("under".to_owned());
    r.push("unfortunately".to_owned());
    r.push("unless".to_owned());
    r.push("unlikely".to_owned());
    r.push("until".to_owned());
    r.push("unto".to_owned());
    r.push("up".to_owned());
    r.push("upon".to_owned());
    r.push("us".to_owned());
    r.push("use".to_owned());
    r.push("used".to_owned());
    r.push("useful".to_owned());
    r.push("uses".to_owned());
    r.push("using".to_owned());
    r.push("usually".to_owned());
    r.push("uucp".to_owned());
    r.push("v".to_owned());
    r.push("value".to_owned());
    r.push("various".to_owned());
    r.push("very".to_owned());
    r.push("via".to_owned());
    r.push("viz".to_owned());
    r.push("vs".to_owned());
    r.push("w".to_owned());
    r.push("want".to_owned());
    r.push("wants".to_owned());
    r.push("was".to_owned());
    r.push("wasn't".to_owned());
    r.push("way".to_owned());
    r.push("we".to_owned());
    r.push("we'd".to_owned());
    r.push("we'll".to_owned());
    r.push("we're".to_owned());
    r.push("we've".to_owned());
    r.push("welcome".to_owned());
    r.push("well".to_owned());
    r.push("went".to_owned());
    r.push("were".to_owned());
    r.push("weren't".to_owned());
    r.push("what".to_owned());
    r.push("what's".to_owned());
    r.push("whatever".to_owned());
    r.push("when".to_owned());
    r.push("whence".to_owned());
    r.push("whenever".to_owned());
    r.push("where".to_owned());
    r.push("where's".to_owned());
    assert(r@.map_values(|s: String| s@) =~= start + stop_lines_part_10());
}

/// Part 11 of the English stop-word list.
pub open spec fn stop_lines_part_11() -> Seq<Seq<char>> {
    seq![
        "whereafter"@,
        "whereas"@,
        "whereby"@,
        "wherein"@,
        "whereupon"@,
        "wherever"@,
        "whether"@,
        "which"@,
        "while"@,
        "whither"@,
        "who"@,
        "who's"@,
        "whoever"@,
        "whole"@,
        "whom"@,
        "whose"@,
        "why"@,
        "will"@,
        "willing"@,
        "wish"@,
        "with"@,
        "within"@,
        "without"@,
        "won't"@,
        "wonder"@,
        "would"@,
        "would"@,
        "wouldn't"@,
        "x"@,
        "y"@,
        "yes"@,
        "yet"@,
        "you"@,
        "you'd"@,
        "you'll"@,
        "you're"@,
        "you've"@,
        "your"@,
        "yours"@,
        "yourself"@,
        "yourselves"@,
        "z"@,
        "zero"@
    ]
}

fn push_part_11(r: &mut Vec<String>)
    ensures
        final(r)@.map_values(|s: String| s@) == old(r)@.map_values(|s: String| s@) + stop_lines_part_11(),
{
    let ghost start = r@.map_values(|s: String| s@);
    r.push("whereafter".to_owned());
    r.push("whereas".to_owned());
    r.push("whereby".to_owned());
    r.push("wherein".to_owned());
    r.push("whereupon".to_owned());
    r.push("wherever".to_owned());
    r.push("whether".to_owned());
    r.push("which".to_owned());
    r.push("while".to_owned());
    r.push("whither".to_owned());
    r.push("who".to_owned());
    r.push("who's".to_owned());
    r.push("whoever".to_owned());
    r.push("whole".to_owned());
    r.push("whom".to_owned());
    r.push("whose".to_owned());
    r.push("why".to_owned());
    r.push("will".to_owned());
    r.push("willing".to_owned());
    r.push("wish".to_owned());
    r.push("with".to_owned());
    r.push("within".to_owned());
    r.push("without".to_owned());
    r.push("won't".to_owned());
    r.push("wonder".to_owned());
    r.push("would".to_owned());
    r.push("would".to_owned());
    r.push("wouldn't".to_owned());
    r.push("x".to_owned());
    r.push("y".to_owned());
    r.push("yes".to_owned());
    r.push("yet".to_owned());
    r.push("you".to_owned());
    r.push("you'd".to_owned());
    r.push("you'll".to_owned());
    r.push("you're".to_owned());
    r.push("you've".to_owned());
    r.push("your".to_owned());
    r.push("yours".to_owned());
    r.push("yourself".to_owned());
    r.push("yourselves".to_owned());
    r.push("z".to_owned());
    r.push("zero".to_owned());
    assert(r@.map_values(|s: String| s@) =~= start + stop_lines_part_11());
}

/// The lines of the English stop-word list (the SMART system's list).
pub open spec fn english_stop_lines() -> Seq<Seq<char>> {
    stop_lines_part_0() + stop_lines_part_1() + stop_lines_part_2() + stop_lines_part_3() + stop_lines_part_4() + stop_lines_part_5() + stop_lines_part_6() + stop_lines_part_7() + stop_lines_part_8() + stop_lines_part_9() + stop_lines_part_10() + stop_lines_part_11()
}

/// The lines of the English stop-word list.
pub fn english_stop_word_lines() -> (r: Vec<String>)
    ensures
        r@.map_values(|s: String| s@) == english_stop_lines(),
{
    let mut r: Vec<String> = Vec::new();
    assert(r@.map_values(|s: String| s@) =~= Seq::<Seq<char>>::empty());
    push_part_0(&mut r);
    push_part_1(&mut r);
    push_part_2(&mut r);
    push_part_3(&mut r);
    push_part_4(&mut r);
    push_part_5(&mut r);
    push_part_6(&mut r);
    push_part_7(&mut r);
    push_part_8(&mut r);
    push_part_9(&mut r);
    push_part_10(&mut r);
    push_part_11(&mut r);
    assert(r@.map_values(|s: String| s@) =~= english_stop_lines());
    r
}

} // verus!
