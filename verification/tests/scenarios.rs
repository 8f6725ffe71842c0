use edit_merge::{apply, merge};

#[test]
fn non_overlapping_1_2() {
    let text = "hello world";
    let expected = "hi earth";
    let edits1 = vec![(0..5, "hi")];
    let edits2 = vec![(3..8, "earth")];
    let intermediate = apply(text, &edits1).unwrap();
    assert_eq!(expected, apply(&intermediate, &edits2).unwrap());

    let new_edits = merge(&edits1, &edits2).unwrap();
    assert_eq!(expected, apply(text, &new_edits).unwrap());
}

#[test]
fn non_overlapping_2_1() {
    let text = "hello world";
    let expected = "hi earth";
    let edits1 = vec![(6..11, "earth")];
    let edits2 = vec![(0..5, "hi")];
    let intermediate = apply(text, &edits1).unwrap();
    assert_eq!(expected, apply(&intermediate, &edits2).unwrap());

    let new_edits = merge(&edits1, &edits2).unwrap();
    assert_eq!(expected, apply(text, &new_edits).unwrap());
}

#[test]
fn overlapping_1_2() {
    let text = "hello to the world";
    let expected = "hi earth";
    let edits1 = vec![(0..12, "hi there")];
    let edits2 = vec![(3..14, "earth")];
    let intermediate = apply(text, &edits1).unwrap();
    assert_eq!(expected, apply(&intermediate, &edits2).unwrap());

    let new_edits = merge(&edits1, &edits2).unwrap();
    assert_eq!(expected, apply(text, &new_edits).unwrap());
}

#[test]
fn overlapping_2_1() {
    let text = "hello to the world";
    let expected = "hi earth";
    let edits1 = vec![(9..18, "big earth")];
    let edits2 = vec![(0..12, "hi")];
    let intermediate = apply(text, &edits1).unwrap();
    assert_eq!(expected, apply(&intermediate, &edits2).unwrap());

    let new_edits = merge(&edits1, &edits2).unwrap();
    assert_eq!(expected, apply(text, &new_edits).unwrap());
}

#[test]
fn subset_1_2() {
    let text = "hello big earth";
    let expected = "hi small world";
    let edits1 = vec![(0..15, "hi big world")];
    let edits2 = vec![(3..6, "small")];
    let intermediate = apply(text, &edits1).unwrap();
    assert_eq!(expected, apply(&intermediate, &edits2).unwrap());

    let new_edits = merge(&edits1, &edits2).unwrap();
    assert_eq!(expected, apply(text, &new_edits).unwrap());
}

#[test]
fn subset_2_1() {
    let text = "hello big earth";
    let expected = "hi world";
    let edits1 = vec![(6..9, "small")];
    let edits2 = vec![(0..17, "hi world")];
    let intermediate = apply(text, &edits1).unwrap();
    assert_eq!(expected, apply(&intermediate, &edits2).unwrap());

    let new_edits = merge(&edits1, &edits2).unwrap();
    assert_eq!(expected, apply(text, &new_edits).unwrap());
}

#[test]
fn attr_fn() {
    let text = r#"{
  f = { x
  , y
      }: body;

  testAllTrue = expr: {inherit expr;expected=map (x: true) expr; };
}
    "#;
    let expected = r#"{
  f =
    { x
    , y
    }: body;

  testAllTrue = expr: { inherit expr; expected = map (x: true) expr; };
}
    "#;
    let edits1 = vec![
        (7..8, "\n"),
        (57..57, " "),
        (70..70, " "),
        (78..78, " "),
        (79..79, " "),
    ];
    let edits2 = vec![(7..8, "\n    "), (11..14, "\n    "), (17..24, "\n    ")];
    let intermediate = apply(text, &edits1).unwrap();
    assert_eq!(expected, apply(&intermediate, &edits2).unwrap());

    let new_edits = merge(&edits1, &edits2).unwrap();
    assert_eq!(expected, apply(text, &new_edits).unwrap());
}

#[test]
fn curried_fn() {
    let text = r#"{
mkValueStringDefault = {}: v: with builtins;
let err = t: v: abort
"oups";
in 92;
}
"#;

    let expected = r#"{
  mkValueStringDefault = {}: v: with builtins;
    let
      err = t: v: abort
        "oups";
    in
    92;
}
"#;

    let edits1 = vec![(50..51, "\n"), (79..80, "\n")];
    let edits2 = vec![
        (1..2, "\n  "),
        (46..47, "\n    "),
        (50..51, "\n      "),
        (68..69, "\n        "),
        (76..77, "\n    "),
        (79..80, "\n    "),
    ];
    let intermediate = apply(text, &edits1).unwrap();
    assert_eq!(expected, apply(&intermediate, &edits2).unwrap());

    let new_edits = merge(&edits1, &edits2).unwrap();
    assert_eq!(expected, apply(text, &new_edits).unwrap());
}

#[test]
fn existing_blank_lines() {
    let text = r#"[1

# first block
2
3

# second block
4
5]
"#;

    let expected = r#"[
  1

  # first block
  2
  3

  # second block
  4
  5
]
"#;
    let edits1 = vec![(1..1, "\n"), (41..41, "\n")];
    let edits2 = vec![
        (1..2, "\n  "),
        (3..5, "\n\n  "),
        (18..19, "\n  "),
        (20..21, "\n  "),
        (22..24, "\n\n  "),
        (38..39, "\n  "),
        (40..41, "\n  "),
    ];
    let intermediate = apply(text, &edits1).unwrap();
    assert_eq!(expected, apply(&intermediate, &edits2).unwrap());

    let new_edits = merge(&edits1, &edits2).unwrap();
    assert_eq!(expected, apply(text, &new_edits).unwrap());
}

#[test]
fn indent_lambda_top_level() {
    let text = r#"import ./make-test-python.nix ({pkgs, lib, ...}:

let
  bar = 57;
in {
  baz = qux;
})"#;

    let expected = r#"import ./make-test-python.nix ({ pkgs, lib, ... }:

let
  bar = 57;
in
{
  baz = qux;
})
"#;
    let edits1 = vec![(32..32, " "), (46..46, " "), (68..69, "\n"), (86..86, "\n")];
    let edits2 = vec![];
    let intermediate = apply(text, &edits1).unwrap();
    assert_eq!(expected, apply(&intermediate, &edits2).unwrap());

    let new_edits = merge(&edits1, &edits2).unwrap();
    assert_eq!(expected, apply(text, &new_edits).unwrap());
}

#[test]
fn indent_tabs_2() {
    let text = r#"args@{	z	,	}	:

		  	{
		a	 =  	 	"1"	;
		b	 =	 {	} 	// 	{	}	;		
		c 	=	   	z	.	y	;
		d 	=	 1.2	;	
	e 	=	   5	  	;
		f	 = 	./test		;
			g	 = 	true	;		
		h 		=	 null	;
	i 	  		=	 [	 1	 ./example.bin	 { 		hello	=		"world"	;	 } 	]	;	
			j 	= 		5	 * 			5;			
	k     = z ? fs		    ;
	l   = z 		++		 z;
	m 	=	 - 324		;
	n = z		  z    ;	
	o = import 	 	 	 		<nixpkgs>		;
	p = with z; "fdsfs";			    
	q = ''
  ${5+5}
	'';
	r = " f${z}ds ";
		  	  		 }"#;

    let expected = r#"args@{ z, }:

{
  a = "1";
  b = { } // { };
  c = z.y;
  d = 1.2;
  e = 5;
  f = ./test;
  g = true;
  h = null;
  i = [ 1 ./example.bin { hello = "world"; } ];
  j = 5 * 5;
  k = z ? fs;
  l = z ++ z;
  m = - 324;
  n = z z;
  o = import <nixpkgs>;
  p = with z; "fdsfs";
  q = ''
      ${5+5}
    	'';
  r = " f${z}ds ";
}
"#;
    let edits1 = vec![
        (6..7, " "),
        (8..9, ""),
        (10..11, " "),
        (12..13, ""),
        (26..28, " "),
        (29..34, " "),
        (37..38, ""),
        (43..45, " "),
        (46..48, " "),
        (49..50, " "),
        (51..53, " "),
        (55..57, " "),
        (58..59, " "),
        (60..61, ""),
        (68..70, " "),
        (71..76, " "),
        (77..78, ""),
        (79..80, ""),
        (81..82, ""),
        (87..89, " "),
        (90..92, " "),
        (95..96, ""),
        (101..103, " "),
        (104..108, " "),
        (109..113, ""),
        (118..120, " "),
        (121..123, " "),
        (129..131, ""),
        (137..139, " "),
        (140..142, " "),
        (146..147, ""),
        (154..157, " "),
        (158..160, " "),
        (164..165, ""),
        (169..175, " "),
        (176..178, " "),
        (179..181, " "),
        (182..184, " "),
        (197..199, " "),
        (200..203, " "),
        (208..209, " "),
        (210..212, " "),
        (219..220, ""),
        (221..223, " "),
        (224..226, " "),
        (227..228, ""),
        (235..237, " "),
        (238..241, " "),
        (242..244, " "),
        (245..249, " "),
        (257..262, " "),
        (270..276, ""),
        (280..283, " "),
        (286..289, " "),
        (291..294, " "),
        (299..301, " "),
        (302..304, " "),
        (309..311, ""),
        (319..323, " "),
        (324..328, ""),
        (342..351, " "),
        (360..362, ""),
        (444..444, "\n"),
    ];
    let edits2 = vec![
        (12..19, "\n\n"),
        (20..23, "\n  "),
        (31..34, "\n  "),
        (49..54, "\n  "),
        (62..65, "\n  "),
        (73..76, "\n  "),
        (82..85, "\n  "),
        (96..100, "\n  "),
        (109..114, "\n  "),
        (123..125, "\n  "),
        (170..175, "\n  "),
        (185..190, "\n  "),
        (201..203, "\n  "),
        (214..216, "\n  "),
        (226..228, "\n  "),
        (236..239, "\n  "),
        (260..262, "\n  "),
        (282..291, "\n  "),
        (298..298, "    "),
        (307..307, "    "),
        (311..313, "\n  "),
        (329..340, "\n"),
    ];
    let intermediate = apply(text, &edits1).unwrap();
    assert_eq!(expected, apply(&intermediate, &edits2).unwrap());

    let new_edits = merge(&edits1, &edits2).unwrap();
    assert_eq!(expected, apply(text, &new_edits).unwrap());
}

#[test]
fn indented_lambda() {
    let text = r#"{
  # how to string-format the option name;
  # by default one character is a short option (`-`),
  # more than one characters a long option (`--`).
  mkOptionName ?
  k: if builtins.stringLength k == 1
    then "-${k}"
    else "--${k}"
, mkOption ? k: v:
  if v == null
  then [ ]
  else [ (mkOptionName k) (lib.generators.mkValueStringDefault { } v) ]
}:
{  toINI = {
  # parameter comment
  mkSectionName ? (name: libStr.escape [ "[" "]" ] name)
  , mkKeyValue ? mkKeyValueDefault {} "="
  }: attrsOfAttrs:
    mapAttrsToStringsSep "\n" mkSection attrsOfAttrs;
}
"#;

    let expected = r#"{
  # how to string-format the option name;
  # by default one character is a short option (`-`),
  # more than one characters a long option (`--`).
  mkOptionName ? k:
    if builtins.stringLength k == 1
    then "-${k}"
    else "--${k}"
, mkOption ? k: v:
    if v == null
    then [ ]
    else [ (mkOptionName k) (lib.generators.mkValueStringDefault { } v) ]
}:
{
  toINI =
    {
      # parameter comment
      mkSectionName ? (name: libStr.escape [ "[" "]" ] name)
    , mkKeyValue ? mkKeyValueDefault { } "="
    }: attrsOfAttrs:
    mapAttrsToStringsSep "\n" mkSection attrsOfAttrs;
}
"#;

    let edits1 = vec![
        (1..4, "\n"),
        (165..168, " "),
        (170..171, "\n"),
        (359..361, "\n"),
        (368..369, "\n"),
        (370..373, "\n"),
        (486..486, " "),
    ];
    let edits2 = vec![
        (1..2, "\n  "),
        (166..167, "\n    "),
        (252..255, "\n    "),
        (267..270, "\n    "),
        (278..281, "\n    "),
        (355..356, "\n  "),
        (363..364, "\n    "),
        (365..366, "\n      "),
        (385..388, "\n      "),
        (442..445, "\n    "),
        (485..488, "\n    "),
    ];
    let intermediate = apply(text, &edits1).unwrap();
    assert_eq!(expected, apply(&intermediate, &edits2).unwrap());

    let new_edits = merge(&edits1, &edits2).unwrap();
    assert_eq!(expected, apply(text, &new_edits).unwrap());
}
