//! Blocks of code with the marks that they get. In the expected lines `<..>` is
//! marked text, `|` a bar and `!` a bar for a line of its own.

use refined_diff::{block_diff_runs, DiffSpan};

fn render(spans: &[DiffSpan]) -> String {
    spans
        .iter()
        .map(|s| match s.mark {
            None => s.text.to_string(),
            Some(_) if s.text.is_empty() && s.spans_line => "!".to_string(),
            Some(_) if s.text.is_empty() => "|".to_string(),
            Some(_) => format!("<{}>", s.text),
        })
        .collect()
}

fn check(del: &[&str], add: &[&str], want_del: &[&str], want_add: &[&str]) {
    let (del_spans, add_spans) = block_diff_runs(del, add);
    let got_del: Vec<String> = del_spans.iter().map(|s| render(s)).collect();
    let got_add: Vec<String> = add_spans.iter().map(|s| render(s)).collect();
    assert_eq!(got_del, want_del, "deleted lines of {:?} -> {:?}", del, add);
    assert_eq!(got_add, want_add, "added lines of {:?} -> {:?}", del, add);
}

#[test]
fn edits_within_one_line() {
    check(
        &["if oldValue items "],
        &["[i] oldValue ", "if 1Value items "],
        &["<if> oldValue !items "],
        &["<[i]> oldValue ", "<if 1Value >items "],
    );
    check(
        &["foo ifreturn [i] "],
        &["foo ifretur->n [i] "],
        &["foo ifretur|n [i] "],
        &["foo ifretur<->>n [i] "],
    );
    check(
        &["x getName; ( \u{7cfb}\u{7edf} , foo "],
        &["x ", "x getName; ( \u{7cfb}\u{7edf} , foo "],
        &["!x getName; ( \u{7cfb}\u{7edf} , foo "],
        &["<x >", "x getName; ( \u{7cfb}\u{7edf} , foo "],
    );
    check(
        &["count items ->\t [i]"],
        &["count itembars ->\t [i]"],
        &["count item|s ->\t [i]"],
        &["count item<bar>s ->\t [i]"],
    );
    check(
        &["=+   oldValue let bar "],
        &["ba\u{7cfb}\u{7edf}r  42oldValue let bar "],
        &["<=+>   oldValue let bar "],
        &["<ba\u{7cfb}\u{7edf}r>  <42>oldValue let bar "],
    );
    check(
        &["; 1 -> ; ifFoo "],
        &["oldValueif oldValue", "; 1 (x->; ifFoo "],
        &["!; 1 |->< >; ifFoo "],
        &["<oldValueif oldValue>", "; 1 <(x>->|; ifFoo "],
    );
    check(
        &["[i]newValue return 1 ="],
        &["[newV1alue return 1 ="],
        &["[<i]>newV|alue return 1 ="],
        &["[|newV<1>alue return 1 ="],
    );
    check(
        &[")FoonewValuecount value bar\u{7cfb}\u{7edf} "],
        &["return ", ")FoewValuent ue bar\u{7cfb}\u{7edf} "],
        &["!)Fo<on>ewValue<cou>nt <val>ue bar\u{7cfb}\u{7edf} "],
        &["<return >", ")Fo|ewValue|nt |ue bar\u{7cfb}\u{7edf} "],
    );
    check(
        &["= return ;count   if newValue "],
        &["items", "= return ;count   if newValifue "],
        &["!= return ;count   if newVal|ue "],
        &["<items>", "= return ;count   if newVal<if>ue "],
    );
    check(
        &["= =getName( "],
        &["baritems = foo", "= =getNa\tmeitems( "],
        &["!= =getNa|me|( "],
        &["<baritems = foo>", "= =getNa<\t>me<items>( "],
    );
    check(
        &["getNameFooreturn let\u{7cfb}\u{7edf} \t "],
        &["getNameFooreturn let\u{7cfb}Foo \t "],
        &["getNameFooreturn let\u{7cfb}<\u{7edf}> \t "],
        &["getNameFooreturn let\u{7cfb}<Foo> \t "],
    );
    check(
        &["items oldValue countvalue "],
        &["newValus oldValue countvalue "],
        &["<items> oldValue countvalue "],
        &["<newValus> oldValue countvalue "],
    );
    check(
        &["bar newValuex x [i]    )"],
        &["bar newValuex x [Foo)"],
        &["bar newValuex x [<i]>    )"],
        &["bar newValuex x [<Foo>)"],
    );
    check(
        &["ifFoo if \u{7cfb}\u{7edf}"],
        &["1Foo ifif \u{7cfb}\u{7edf}"],
        &["<if>Foo |if \u{7cfb}\u{7edf}"],
        &["<1>Foo <if>if \u{7cfb}\u{7edf}"],
    );
}

#[test]
fn edits_across_lines() {
    check(
        &["\u{7cfb}\u{7edf} \u{7cfb}\u{7edf}Foo ", "newValue; ,value", "newValue letnewValue= ; ", "->value=  "],
        &[" \u{7cfb}x\u{7edf}F\too ", "newVagetNamvalue", "newValue letnewValue= ; "],
        &["<\u{7cfb}\u{7edf}> \u{7cfb}|\u{7edf}F|oo ", "newVa<lue;> <,>value", "newValue letnewValue= ;< >", "<->value= > "],
        &["| \u{7cfb}<x>\u{7edf}F<\t>oo ", "newVa<getNam>value", "newValue letnewValue= ;! "],
    );
    check(
        &["[i] foo items; +", "\u{7cfb}\u{7edf}  Foo", "   foo "],
        &["= \u{7cfb}\u{7edf} ->", "[i] foo items; ", "\u{7cfb}\u{7edf}  (Foo"],
        &["![i] foo items; <+>", "\u{7cfb}\u{7edf}  |Foo", "<   foo >"],
        &["<= \u{7cfb}\u{7edf} ->>", "[i] foo items; |", "\u{7cfb}\u{7edf}  <(>Foo!"],
    );
    check(
        &["-> xif ", "->bar ", "returncount[i] newValue"],
        &["-=>bar ", "returncou newValue"],
        &["-<>> <xif> ", "<->>bar ", "returncou<nt[i]> newValue"],
        &["-<=>>bar ", "returncou| newValue"],
    );
    check(
        &["value let \u{7cfb}\u{7edf}42return", ")if ;   value", "\txoldValue x ( ", ") count+ newValue , "],
        &["\tx;ol+lueitems ( ", ") count+ newValue , "],
        &["<value> <let> <\u{7cfb}\u{7edf}42return>", "<)if> <;>   <value>", "\t<xoldValue> <x> ( ", ") count+ newValue , "],
        &["<\tx;ol+lueitems> ( ", ") count+ newValue , "],
    );
    check(
        &["return foo", ") foo newValue if"],
        &[")1 foo newVa if"],
        &["<return> <foo>", "<)> foo newVa<lue> if"],
        &["<)1> foo newVa| if"],
    );
    check(
        &["->\t itemsreturn Foo", "bar \t[i] ", "xFoo ( (", "   -> ( Foo x"],
        &[" itemsreturn F)o", "oldValuer Foo[i]=", ";xFoo (", "oldValue", "   -> ( Foo x"],
        &["<->\t> itemsreturn F<o>o", "<bar> \t[i]< >", "xFoo (< (>", "   -> ( Foo x"],
        &["| itemsreturn F<)>o", "<oldValuer> <Foo>[i]<=>", "<;>xFoo (", "<oldValue>", "   -> ( Foo x"],
    );
    check(
        &["\t = ", "oldValue-> "],
        &["Foo", "\t = ", "if)    ", "oldValue-> "],
        &["!\t = ", "!oldValue-> "],
        &["<Foo>", "\t = ", "<if)    >", "oldValue-> "],
    );
    check(
        &["getName \t return\u{7cfb}\u{7edf}items ", "let, let ", "foo Foo", "[i] 1 Foo count count"],
        &["getName \t retur\u{7cfb}\u{7edf}items ", "le", "[i] 1 Foo c  1ount c,nt"],
        &["getName \t retur<n>\u{7cfb}\u{7edf}items ", "le<t, let >", "<foo Foo>", "[i] 1 Foo c|ount c<ou>nt"],
        &["getName \t retur|\u{7cfb}\u{7edf}items ", "le!", "[i] 1 Foo c<  1>ount c<,>nt"],
    );
    check(
        &["oldValue + 1 1", "1 ; 1) x", "items-> + ;let", "letnewValue +( foo "],
        &["oldValue + 1 1", "items->->;let", "etnewValuenewValue +(foo "],
        &["oldValue + 1 1", "<1 ; 1) x>", "items-> <+> ;let", "<l>etnew|Value +(< >foo "],
        &["oldValue + 1 1", "!items-><->>;let", "|etnew<Valuenew>Value +(|foo "],
    );
    check(
        &["-> 42 x ", "( =foo getName newValue", "\t return , newValue ", "; countbar"],
        &["-1> 42 x ", "( =fogetName newe", "\t return , wValue ", "; coublet(ar"],
        &["-|> 42 x ", "( =fo<o >getName new<Valu>e", "\t return , <ne>wValue ", "; cou<ntb>ar"],
        &["-<1>> 42 x ", "( =fo|getName new|e", "\t return , |wValue ", "; cou<blet(>ar"],
    );
    check(
        &["\t [i] +\tcount ", "+ 42 1 getName ", ",  oldValue"],
        &["\t [i] +\tcount ", "+ 42 1 getName ", ",  oldValu"],
        &["\t [i] +\tcount ", "+ 42 1 getName ", ",  oldValu<e>"],
        &["\t [i] +\tcount ", "+ 42 1 getName ", ",  oldValu|"],
    );
    check(
        &["count [i] ", "bar if ", "-> x "],
        &["count\u{7cfb}\u{7edf}leti] ", ")+f ", "-> x "],
        &["count <[i>] ", "<bar> <i>f ", "-> x "],
        &["count<\u{7cfb}\u{7edf}leti>] ", "<)+>f ", "-> x "],
    );
    check(
        &["+Foo \t ", "let =(= oldValue ", "+ -> = "],
        &["+Foo \treturn ", "let =(= oldValuenewValue"],
        &["+Foo \t| ", "let =(= oldValue ", "<+> <->> <=> "],
        &["+Foo \t<return> ", "let =(= oldValue<newValue>"],
    );
    check(
        &["[i]count", "x ; ) 42", "= Foo -> , foo "],
        &["[i]ccoun=tount", "x  ) 4,2", "= Foo , foo\u{7cfb}\u{7edf} "],
        &["[i]c|ount", "x <;> ) 4|2", "= Foo <-> >, foo| "],
        &["[i]c<coun=t>ount", "x | ) 4<,>2", "= Foo |, foo<\u{7cfb}\u{7edf}> "],
    );
}

#[test]
fn edits_across_lines_with_line_feeds() {
    check(
        &["Foo Foovalue \n", "Foo value count -> [i] \n"],
        &["getNameFoo1 Foove \n", "Foo value ccouitemsntt -> [i] \n"],
        &["<Foo> Foov<alu>e \n", "Foo value <count> -> [i] \n"],
        &["<getNameFoo1> Foov|e \n", "Foo value <ccouitemsntt> -> [i] \n"],
    );
    check(
        &["countfoo  Fooitems\n", ";42 \n"],
        &["countfoo xoitfooems\n", "value let ;\n", ";42if42 \n"],
        &["countfoo  <Fo>oit|ems\n", "<;42> \n"],
        &["countfoo <x>oit<foo>ems\n", "<value> <let> <;>\n", "<;42if42> \n"],
    );
    check(
        &["count items \n", ",42 count+ \n", "x; ->+ return \n"],
        &["   [i] foo \n", "counitems itFooems \n", "x; ->+ return \n"],
        &["!coun<t >items \n", "<,42> <count+> \n", "x; ->+ return \n"],
        &["<   [i] foo >\n", "coun|items <itFooems> \n", "x; ->+ return \n"],
    );
    check(
        &["getName value \n", "Foo42 return if\t \n"],
        &["getName lue \n", "Foo42 return if\t \n"],
        &["getName <va>lue \n", "Foo42 return if\t \n"],
        &["getName |lue \n", "Foo42 return if\t \n"],
    );
    check(
        &["bar foolet \n", "-> Foo if 1 \n", ")return \n"],
        &["bar foreturn\n", "-> FooldV42alueif 1 \n", ")retur\n"],
        &["bar <foolet> \n", "-> <Foo> <if> 1 \n", ")retur<n >\n"],
        &["bar <foreturn>\n", "-> <FooldV42alueif> 1 \n", ")retur|\n"],
    );
    check(
        &["oldValue \t \n", "->let foo \n", "\treturn , \n"],
        &["count 42bar \n", "oldVitemsue \t \n", "leo42\n", "\treturn , \n"],
        &["!oldV<al>ue \t \n", "<->let> <foo> \n", "\treturn , \n"],
        &["<count 42bar >\n", "oldV<items>ue \t \n", "<leo42>\n", "\treturn , \n"],
    );
    check(
        &["1 , count let x\n", ") ->let \n"],
        &[") 1\n", "1 , ccountount let x\n", ") ->let \n"],
        &["!1 , c|ount let x\n", ") ->let \n"],
        &["<) 1>\n", "1 , c<count>ount let x\n", ") ->let \n"],
    );
    check(
        &["Foo    items\n", "fooitems let\u{7cfb}\u{7edf}\n"],
        &["bar ) foo Foo \n", "Fbaritemso    it;ems\n", "42 \n", "fooi4bar2tems=let\u{7cfb}\u{7edf}\n"],
        &["|Foo!    it|ems\n", "!fooi|tems let\u{7cfb}\u{7edf}\n"],
        &["<bar ) foo >Foo< >\n", "<Fbaritemso>    it<;>ems\n", "<42 >\n", "fooi<4bar2>tems<=>let\u{7cfb}\u{7edf}\n"],
    );
}

#[test]
fn edits_in_long_blocks() {
    check(
        &["1 value ) items ; value [i] newValue ,bar ", "(value[i] getName 1) return return 1 ", "if    =oldValue itemsvalue \u{7cfb}\u{7edf}bar -> 1getName", "count count;items -> ->Foo )valuereturn", "; 1= ->) +return let   bar bar ", "x1 \u{7cfb}\u{7edf}return    items x1 Foo( let ", "let items =x valueitems ;[i]oldValue"],
        &["newValuecount    items", "1 value ) items ; val[i] newValue ,bar ", "(value[i] getName 1) recounturn return 1 ", "oldValue newValue if 1 ", "  =oldValue itemsvalue \u{7cfb}\u{7edf}bar ->1getName", "+ items count ", "count count;itemsreturn-> ->Fovaluevaluereturn", "; 1= ->) +return let   bar bar ", "xreturn    items x1 Fo( let ", "let item valueitems ;[i]oldValue"],
        &["!1 value ) items ; val<ue >[i] newValue ,bar ", "(value[i] getName 1) re|turn return 1 ", "|if < >  =oldValue itemsvalue \u{7cfb}\u{7edf}bar ->< >1getName", "!count count;items -> ->Fo<o> <)>valuereturn", "; 1= ->) +return let   bar bar ", "x<1 \u{7cfb}\u{7edf}>return    items x1 Fo<o>( let ", "let item<s =x> valueitems ;[i]oldValue"],
        &["<newValuecount    items>", "1 value ) items ; val|[i] newValue ,bar ", "(value[i] getName 1) re<coun>turn return 1 ", "<oldValue newValue >if <1> ", "  =oldValue itemsvalue \u{7cfb}\u{7edf}bar ->|1getName", "<+ items count >", "count count;items<return>-> ->Fo<value>valuereturn", "; 1= ->) +return let   bar bar ", "x|return    items x1 Fo|( let ", "let item| valueitems ;[i]oldValue"],
    );
    check(
        &["getName getName    if=( = if Foo 42getName ", "[i] [i] oldValue    bar   ,if items bar", "= [i] letcount Foo FoogetName ) 1", "if   foo 42 + = ) ->oldValue foo( ", "= =    xoldValue return newValue Foo (", "bar ;foolet 42 if ;\u{7cfb}\u{7edf}\u{7cfb}\u{7edf} oldValue ", "  Foo 1foocount 42, ,bar"],
        &["getName getNameif=( = if Foo 42gName ", "[i] ] oldValue  bar    ,if items bar", "= [i]footcount Foo FoogetName ) 1", "if   foo 42 +count= )ldValue foo( ", "= =    xoldValue return newValue Foo (", "bar ;foolet 42 );\u{7cfb}\u{7edf};oldValue ", "oo 1foocount 42, ,bar"],
        &["getName getName<    >if=( = if Foo 42g<et>Name ", "[i] <[i>] oldValue<  >  bar   |,if items bar", "= [i] <le>tcount Foo FoogetName ) 1", "if   foo 42 + = )< ->o>ldValue foo( ", "= =    xoldValue return newValue Foo (", "bar ;foolet 42 <if> ;\u{7cfb}\u{7edf}<\u{7cfb}\u{7edf}> oldValue ", "<  F>oo 1foocount 42, ,bar"],
        &["getName getName|if=( = if Foo 42g|Name ", "[i] |] oldValue|  bar   < >,if items bar", "= [i]<foo>tcount Foo FoogetName ) 1", "if   foo 42 +<count>= )|ldValue foo( ", "= =    xoldValue return newValue Foo (", "bar ;foolet 42 <)>;\u{7cfb}\u{7edf}<;>oldValue ", "|oo 1foocount 42, ,bar"],
    );
    check(
        &["->Foo \u{7cfb}\u{7edf}->bar bar foo [i] oldValue foo", "42 foolet ) foo \t + x   ", "getName[i] \u{7cfb}\u{7edf} +foo \u{7cfb}\u{7edf} count + \t ", "value ) if , xbarlet ,x", "  if let = newValue \u{7cfb}\u{7edf}\u{7cfb}\u{7edf} items [i] items", "[i]return value   \titems ; oldValue oldValue", "\t Foo 1 +count oldValue + Foo )if , ", "if items\t newValue    return getName + newValue \t ", "\u{7cfb}\u{7edf}( oldValueFoo foo ,itemsnewValue 1items let "],
        &["->Foo \u{7cfb}\u{7edf}->r bar foo=ldValue foo", "42 foolet ) foo \t + x   ", "getName[i] \u{7cfb}\u{7edf} +foo \u{7cfb}\u{7edf} count + \t ", "value ) ,, xbarlet ", "[i]return value   \tims ; oldValue oldValue", "\t Foo 1 +count oldVale + Foo )if , ", "if items\t newValue    returnFoogetNam + newValue ", "\u{7cfb}\u{7edf}( oValueFoo foo ,itemsnewValue 1items let "],
        &["->Foo \u{7cfb}\u{7edf}-><ba>r bar foo <[i]> <o>ldValue foo", "42 foolet ) foo \t + x   ", "getName[i] \u{7cfb}\u{7edf} +foo \u{7cfb}\u{7edf} count + \t ", "value ) <if> , xbarlet <,x>", "<  if let = newValue \u{7cfb}\u{7edf}\u{7cfb}\u{7edf} items [i] items>", "[i]return value   \ti<te>ms ; oldValue oldValue", "\t Foo 1 +count oldVal<u>e + Foo )if , ", "if items\t newValue    return getNam<e> + newValue <\t >", "\u{7cfb}\u{7edf}( o<ld>ValueFoo foo ,itemsnewValue 1items let "],
        &["->Foo \u{7cfb}\u{7edf}->|r bar foo<=>ldValue foo", "42 foolet ) foo \t + x   ", "getName[i] \u{7cfb}\u{7edf} +foo \u{7cfb}\u{7edf} count + \t ", "value ) <,>, xbarlet !", "[i]return value   \ti|ms ; oldValue oldValue", "\t Foo 1 +count oldVal|e + Foo )if , ", "if items\t newValue    return<Foo>getNam| + newValue |", "\u{7cfb}\u{7edf}( o|ValueFoo foo ,itemsnewValue 1items let "],
    );
    check(
        &["oldValue)  = getName getNamefooitems   getName 1", "\u{7cfb}\u{7edf} \t valueoldValuefoolet 1 ,\t -> ( ", "1 x = ( [i][i] [i] let [i]newValue 42", "\u{7cfb}\u{7edf} \u{7cfb}\u{7edf}   [i] \t    Foo4242 Foo ( ", "items( Foo ,[i] \tcount 11 ", "42bar= =oldValue x ifgetName Foo ", "Foo items    1 ,returnbar== bar ", "42 x x , oldValuevalue getName getName Foo "],
        &["oldValugetNamee)  = getName getNamefooitems   getName 1", "\u{7cfb} val)ueoldValulet 1 ,\t -> ( ", "\u{7cfb}\u{7edf} \u{7cfb}\u{7edf}   [i] \t    Foo4242 Foo ( ", "items( Foo ,[i] \tcount 11 ", "42bar= =oldValue xetName Foo ", "42 x x , oldValuevalue getName getName Foo "],
        &["oldValu|e)  = getName getNamefooitems   getName 1", "\u{7cfb}<\u{7edf} \t> val|ueoldValu<efoo>let 1 ,\t -> ( ", "<1 x = ( [i][i] [i] let [i]newValue 42>", "\u{7cfb}\u{7edf} \u{7cfb}\u{7edf}   [i] \t    Foo4242 Foo ( ", "items( Foo ,[i] \tcount 11 ", "42bar= =oldValue x< ifg>etName Foo ", "<Foo items    1 ,returnbar== bar >", "42 x x , oldValuevalue getName getName Foo "],
        &["oldValu<getName>e)  = getName getNamefooitems   getName 1", "\u{7cfb}| val<)>ueoldValu|let 1 ,\t -> ( ", "!\u{7cfb}\u{7edf} \u{7cfb}\u{7edf}   [i] \t    Foo4242 Foo ( ", "items( Foo ,[i] \tcount 11 ", "42bar= =oldValue x|etName Foo ", "!42 x x , oldValuevalue getName getName Foo "],
    );
    check(
        &["items = bar items 1  ) ,if ", ";return [i]value return bar[i] let ; ", "   , 1 \u{7cfb}\u{7edf} return ) -> if+ ->    ", "getName(foo x42 \u{7cfb}\u{7edf} [i]getName x + \u{7cfb}\u{7edf} ", "   ([i] x newValue   [i] Foo foo ", ",(,Foo[i] Foo [i] bar [i]", "let \t = ; count newValue value = let", "newValue    if -> , x let foo newValue oldValue = ", "-> Foo bar1 return newValue= ( )getName "],
        &["items = bar countms 1  ) ,if ", ";return [ialue return ba+r)[i] let ; ", "   , items1 \u{7cfb}\u{7edf} [i]retu  rn ) -> if+ ->    ", "( -> ->", "getName(foo x42 \u{7cfb}\u{7edf} [i]getName x + \u{7cfb}\u{7edf} ", ") ", ",(,Foo[i] Foo [i]->bar [b", "xlet \t = ; count neiflue 42value = let", "newValue    if -> , x let foo newValue ol[i]dVlu   = "],
        &["items = bar <items> 1  ) ,if ", ";return [i<]v>alue return ba<r>[i] let ; ", "   , <1> \u{7cfb}\u{7edf} |retu|rn ) -> if+ ->    ", "!getName(foo x42 \u{7cfb}\u{7edf} [i]getName x + \u{7cfb}\u{7edf} ", "   <([i]> <x> <newValue>   <[i]> <Foo> <foo> ", ",(,Foo[i] Foo [i] bar [<i]>", "let \t = ; count ne<wVa>lue |value = let", "newValue    if -> , x let foo newValue ol|dV<a>lu<e> <=> ", "<->> <Foo> <bar1> <return> <newValue>= <( )getName >"],
        &["items = bar <countms> 1  ) ,if ", ";return [i|alue return ba<+r)>[i] let ; ", "   , <items1> \u{7cfb}\u{7edf} <[i]>retu<  >rn ) -> if+ ->    ", "<( -> ->>", "getName(foo x42 \u{7cfb}\u{7edf} [i]getName x + \u{7cfb}\u{7edf} ", "<)> ", ",(,Foo[i] Foo [i]<->>bar [<b>", "<x>let \t = ; count ne<if>lue <42>value = let", "newValue    if -> , x let foo newValue ol<[i]>dV|lu<   >= |"],
    );
    check(
        &["=let value [i]42foo 42+ \u{7cfb}\u{7edf}-> count ", "\u{7cfb}\u{7edf} if   count ) return, ;FoonewValue", "x getNameFoofoo= \t ) [i] value", "oldValue    [i] value-> =count=oldValue 42", ") 1 , Foo[i] [i] \u{7cfb}\u{7edf}getName( bar ) ", "+   FoooldValue 1oldValue let return foo1items ", "count-> \t;oldValue 1 bar ;)", "return let -> 42 \u{7cfb}\u{7edf} count barnewValue value ", "( if42 ; +let ;   (( "],
        &["= \t", "\u{7cfb}\u{7edf} if ount ) retu;FnewValue", "x gegetNa=tNameFoofoo) [i] value", "oldValue    [i] value-> =cout=oldValu+ 42", "1 -> return", ") 1 ,newValueF1[i\t] [i] \u{7cfb}\u{7edf}getName( bar ) ", "items value 42 items", "+   FoooldValue 1oldValue let xreturnnewValuefoo1items ", "count-> \t;ol1dValue 1 ;)", "valuebar ", "retu[i]1et -> 42 \u{7cfb}\u{7edf} countbar barnewValue value "],
        &["=<let> <value> <[i]42foo> <42+> <\u{7cfb}\u{7edf}->> <count> ", "\u{7cfb}\u{7edf} if <  c>ount ) retu<rn, >;F<oo>newValue", "x ge|tNameFoofoo<= \t >) [i] value", "oldValue    [i] value-> =cou<n>t=oldValu<e> 42", "!) 1 , <Foo>[i|] [i] \u{7cfb}\u{7edf}getName( bar ) ", "!+   FoooldValue 1oldValue let |return foo1items ", "count-> \t;ol|dValue 1 <bar ;)>", "retu<rn> <l>et -> 42 \u{7cfb}\u{7edf} count| barnewValue value ", "<( if42 ; +let ;   (( >"],
        &["= \t", "\u{7cfb}\u{7edf} if |ount ) retu|;F|newValue", "x ge<getNa=>tNameFoofoo|) [i] value", "oldValue    [i] value-> =cou|t=oldValu<+> 42", "<1 -> return>", ") 1 ,<newValueF1>[i<\t>] [i] \u{7cfb}\u{7edf}getName( bar ) ", "<items value 42 items>", "+   FoooldValue 1oldValue let <x>return<newValue>foo1items ", "count-> \t;ol<1>dValue 1 <;)>", "<valuebar> ", "retu<[i]1>et -> 42 \u{7cfb}\u{7edf} count<bar> barnewValue value !"],
    );
}

