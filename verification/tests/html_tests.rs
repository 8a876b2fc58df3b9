use rust_iron::html::{get_apery_for_modulus, input_pages};
use rust_iron::modules::wilf::generatewilf;

#[test]
fn apery_table_html_modulo_multiplicity() {
    let w = generatewilf(&[3, 5]);
    let expected = "<div class='l-box-lrg pure-u-1 pure-u-md-5-5'>Apery mod 3 <table><tr><td style='border:1px solid orange'>0</td><td style='border:1px solid orange'>10</td><td style='border:1px solid orange'>5</td><td>&nbsp;</td></tr><tr><td>0</td><td>-</td><td>-</td><td>&nbsp;</td></tr><tr><td>&nbsp;\u{2b1b}&nbsp;</td><td>&nbsp;_&nbsp;</td><td>&nbsp;_&nbsp;</td><td>maxgap!</td></tr><tr><td style='border:1px solid black'><strong>&nbsp;0&nbsp;</strong></td><td style='border:1px solid black'><strong>&nbsp;0&nbsp;</strong></td><td style='border:1px solid black'><strong>&nbsp;0&nbsp;</strong></td><td>sum=0 apery_mod_s[0]=0 diag[0]=10</tr><tr><td style='border:1px solid black'><strong>&nbsp;0&nbsp;</strong></td><td style='border:1px solid black'><strong>&nbsp;5&nbsp;</strong></td><td style='border:1px solid black'><strong>&nbsp;5&nbsp;</strong></td><td>sum=10 apery_mod_s[1]=10 diag[1]=0</tr><tr><td style='border:1px solid black'><strong>&nbsp;0&nbsp;</strong></td><td style='border:1px solid black'><strong>&nbsp;5&nbsp;</strong></td><td style='border:1px solid black'><strong>&nbsp;0&nbsp;</strong></td><td>sum=5 apery_mod_s[2]=5 diag[2]=5</tr><tr><td style='border:1px solid grey'>0</td><td style='border:1px solid grey'>3</td><td style='border:1px solid grey'>1</td><td>&nbsp;=q</td></tr></table>Summe aller Apery15, doppelter Durchschnitt 10, gaps 4 * s 3 + s(s-1)/2 =15 </div>";
    assert_eq!(get_apery_for_modulus(&w, 3), Some(expected.to_string()));
}

#[test]
fn apery_table_html_modulo_conductor_names_members() {
    let w = generatewilf(&[3, 5]);
    let h = get_apery_for_modulus(&w, w.c).unwrap();
    assert!(h.starts_with("<div class='l-box-lrg pure-u-1 pure-u-md-5-5'>Apery mod 8 <table>"));
    assert!(h.contains("<tr><td>0</td><td>-</td><td>-</td><td>3</td><td>-</td><td>5</td><td>6</td><td>-</td><td>&nbsp;</td></tr>"));
    assert!(h.ends_with("gaps 4 * s 8 + s(s-1)/2 =60 </div>"));
}

#[test]
fn summary_html_for_a_sample() {
    let w = generatewilf(&[3, 5]);
    let expected = "<div class=\"l-box-lrg pure-u-1 pure-u-md-5-5\">[3, 5] <strong>e</strong>=2,<strong>c</strong>=8,<strong>#set</strong>=4,<strong>#gaps=</strong>4  <strong>e*#set-c=</strong>0 ratio: <script>document.write((4/8).toFixed(4));</script><br/>max_apery 10 min_diag 0  (e-2)*max_a 0 - e*min_diag 0 = &nbsp;&nbsp;0 verglichen mit (e-2)(g1-1) 0<br/>Apery [0, 10, 5] Max gap 7 double_avg 10\n\n            <form method=\"post\" action=\"/\">\n            <input id=\"numbers\" type=\"hidden\" name=\"numbers\" value=\"3 5 \">\n            <input id=\"samples\" type=\"hidden\" name=\"samples\" value=\"100\">\n            <button type=\"submit\" class=\"pure-button\">hier weitermachen</button>\n            </form>\n\n        </p></div>";
    assert_eq!(w.to_html("Sample"), Some(expected.to_string()));
}

#[test]
fn page_html_for_the_input() {
    let w = generatewilf(&[3, 5]);
    let expected = "<div class=\"l-box-lrg pure-u-1 pure-u-md-5-5\"><h3>Input 3 5 </h3><table class=\"wilf\" width=\"100%\"><tr><td title=\"9\" class=\"wilf-full\">&nbsp</td><td title=\"10\" class=\"wilf-apery\">&nbsp</td><td title=\"11\" class=\"wilf-full\">&nbsp</td></tr><tr><td title=\"6\" class=\"wilf-full\">&nbsp</td><td title=\"7\" class=\"wilf-empty\">&nbsp</td><td title=\"8\" class=\"wilf-full\">&nbsp</td></tr><tr><td title=\"3\" class=\"wilf-generator\">&nbsp</td><td title=\"4\" class=\"wilf-empty\">&nbsp</td><td title=\"5\" class=\"wilf-generator\">&nbsp</td></tr><tr><td title=\"0\" class=\"wilf-apery\">&nbsp</td><td title=\"1\" class=\"wilf-empty\">&nbsp</td><td title=\"2\" class=\"wilf-empty\">&nbsp</td></tr></table><hr/><br/>Apery mod g1 <table class='lambda'><tr><td class='lambda'>0&nbsp</td><td class='lambda'>0&nbsp</td><td class='lambda'>0&nbsp</td><td class='lambda'>apery[0]<strong>0</apery></td><td>diag[0] 10</td><td>sum=10</td></tr><tr><td class='lambda'>0&nbsp</td><td class='lambda'>5&nbsp</td><td class='lambda'>5&nbsp</td><td class='lambda'>apery[1]<strong>10</apery></td><td>diag[1] 0</td><td>sum=10</td></tr><tr><td class='lambda'>0&nbsp</td><td class='lambda'>5&nbsp</td><td class='lambda'>0&nbsp</td><td class='lambda'>apery[2]<strong>5</apery></td><td>diag[2] 5</td><td>sum=10</td></tr></table></div><div class='l-box-lrg pure-u-1 pure-u-md-5-5'>Apery mod 8 <table><tr><td style='border:1px solid orange'>0</td><td style='border:1px solid orange'>9</td><td style='border:1px solid orange'>10</td><td style='border:1px solid orange'>3</td><td style='border:1px solid orange'>12</td><td style='border:1px solid orange'>5</td><td style='border:1px solid orange'>6</td><td style='border:1px solid orange'>15</td><td>&nbsp;</td></tr><tr><td>0</td><td>-</td><td>-</td><td>3</td><td>-</td><td>5</td><td>6</td><td>-</td><td>&nbsp;</td></tr><tr><td>&nbsp;\u{2b1b}&nbsp;</td><td>&nbsp;_&nbsp;</td><td>&nbsp;_&nbsp;</td><td>&nbsp;\u{2b1b}&nbsp;</td><td>&nbsp;_&nbsp;</td><td>&nbsp;\u{2b1b}&nbsp;</td><td>&nbsp;\u{2b1b}&nbsp;</td><td>&nbsp;_&nbsp;</td><td>maxgap!</td></tr><tr><td style='border:1px solid black'><strong>&nbsp;0&nbsp;</strong></td><td style='border:1px solid black'><strong>&nbsp;0&nbsp;</strong></td><td style='border:1px solid black'><strong>&nbsp;0&nbsp;</strong></td><td style='border:1px solid black'><strong>&nbsp;0&nbsp;</strong></td><td style='border:1px solid black'><strong>&nbsp;0&nbsp;</strong></td><td style='border:1px solid black'><strong>&nbsp;0&nbsp;</strong></td><td style='border:1px solid black'><strong>&nbsp;0&nbsp;</strong></td><td style='border:1px solid black'><strong>&nbsp;0&nbsp;</strong></td><td>sum=0 apery_mod_s[0]=0 diag[0]=15</tr><tr><td style='border:1px solid black'><strong>&nbsp;0&nbsp;</strong></td><td style='border:1px solid black'><strong>&nbsp;1&nbsp;</strong></td><td style='border:1px solid black'><strong>&nbsp;2&nbsp;</strong></td><td style='border:1px solid black'><strong>&nbsp;0&nbsp;</strong></td><td style='border:1px solid black'><strong>&nbsp;2&nbsp;</strong></td><td style='border:1px solid black'><strong>&nbsp;1&nbsp;</strong></td><td style='border:1px solid black'><strong>&nbsp;0&nbsp;</strong></td><td style='border:1px solid black'><strong>&nbsp;3&nbsp;</strong></td><td>sum=9 apery_mod_s[1]=9 diag[1]=6</tr><tr><td style='border:1px solid black'><strong>&nbsp;0&nbsp;</strong></td><td style='border:1px solid black'><strong>&nbsp;2&nbsp;</strong></td><td style='border:1px solid black'><strong>&nbsp;1&nbsp;</strong></td><td style='border:1px solid black'><strong>&nbsp;1&nbsp;</strong></td><td style='border:1px solid black'><strong>&nbsp;2&nbsp;</strong></td><td style='border:1px solid black'><strong>&nbsp;0&nbsp;</strong></td><td style='border:1px solid black'><strong>&nbsp;2&nbsp;</strong></td><td style='border:1px solid black'><strong>&nbsp;2&nbsp;</strong></td><td>sum=10 apery_mod_s[2]=10 diag[2]=5</tr><tr><td style='border:1px solid black'><strong>&nbsp;0&nbsp;</strong></td><td style='border:1px solid black'><strong>&nbsp;0&nbsp;</strong></td><td style='border:1px solid black'><strong>&nbsp;1&nbsp;</strong></td><td style='border:1px solid black'><strong>&nbsp;0&nbsp;</strong></td><td style='border:1px solid black'><strong>&nbsp;0&nbsp;</strong></td><td style='border:1px solid black'><strong>&nbsp;1&nbsp;</strong></td><td style='border:1px solid black'><strong>&nbsp;0&nbsp;</strong></td><td style='border:1px solid black'><strong>&nbsp;1&nbsp;</strong></td><td>sum=3 apery_mod_s[3]=3 diag[3]=12</tr><tr><td style='border:1px solid black'><strong>&nbsp;0&nbsp;</strong></td><td style='border:1px solid black'><strong>&nbsp;2&nbsp;</strong></td><td style='border:1px solid black'><strong>&nbsp;2&nbsp;</strong></td><td style='border:1px solid black'><strong>&nbsp;0&nbsp;</strong></td><td style='border:1px solid black'><strong>&nbsp;3&nbsp;</strong></td><td style='border:1px solid black'><strong>&nbsp;1&nbsp;</strong></td><td style='border:1px solid black'><strong>&nbsp;1&nbsp;</strong></td><td style='border:1px solid black'><strong>&nbsp;3&nbsp;</strong></td><td>sum=12 apery_mod_s[4]=12 diag[4]=3</tr><tr><td style='border:1px solid black'><strong>&nbsp;0&nbsp;</strong></td><td style='border:1px solid black'><strong>&nbsp;1&nbsp;</strong></td><td style='border:1px solid black'><strong>&nbsp;0&nbsp;</strong></td><td style='border:1px solid black'><strong>&nbsp;1&nbsp;</strong></td><td style='border:1px solid black'><strong>&nbsp;1&nbsp;</strong></td><td style='border:1px solid black'><strong>&nbsp;0&nbsp;</strong></td><td style='border:1px solid black'><strong>&nbsp;1&nbsp;</strong></td><td style='border:1px solid black'><strong>&nbsp;1&nbsp;</strong></td><td>sum=5 apery_mod_s[5]=5 diag[5]=10</tr><tr><td style='border:1px solid black'><strong>&nbsp;0&nbsp;</strong></td><td style='border:1px solid black'><strong>&nbsp;0&nbsp;</strong></td><td style='border:1px solid black'><strong>&nbsp;2&nbsp;</strong></td><td style='border:1px solid black'><strong>&nbsp;0&nbsp;</strong></td><td style='border:1px solid black'><strong>&nbsp;1&nbsp;</strong></td><td style='border:1px solid black'><strong>&nbsp;1&nbsp;</strong></td><td style='border:1px solid black'><strong>&nbsp;0&nbsp;</strong></td><td style='border:1px solid black'><strong>&nbsp;2&nbsp;</strong></td><td>sum=6 apery_mod_s[6]=6 diag[6]=9</tr><tr><td style='border:1px solid black'><strong>&nbsp;0&nbsp;</strong></td><td style='border:1px solid black'><strong>&nbsp;3&nbsp;</strong></td><td style='border:1px solid black'><strong>&nbsp;2&nbsp;</strong></td><td style='border:1px solid black'><strong>&nbsp;1&nbsp;</strong></td><td style='border:1px solid black'><strong>&nbsp;3&nbsp;</strong></td><td style='border:1px solid black'><strong>&nbsp;1&nbsp;</strong></td><td style='border:1px solid black'><strong>&nbsp;2&nbsp;</strong></td><td style='border:1px solid black'><strong>&nbsp;3&nbsp;</strong></td><td>sum=15 apery_mod_s[7]=15 diag[7]=0</tr><tr><td style='border:1px solid grey'>0</td><td style='border:1px solid grey'>1</td><td style='border:1px solid grey'>1</td><td style='border:1px solid grey'>0</td><td style='border:1px solid grey'>1</td><td style='border:1px solid grey'>0</td><td style='border:1px solid grey'>0</td><td style='border:1px solid grey'>1</td><td>&nbsp;=q</td></tr></table>Summe aller Apery60, doppelter Durchschnitt 15, gaps 4 * s 8 + s(s-1)/2 =60 </div><div class=\"l-box-lrg pure-u-1 pure-u-md-5-5\">[3, 5] <strong>e</strong>=2,<strong>c</strong>=8,<strong>#set</strong>=4,<strong>#gaps=</strong>4  <strong>e*#set-c=</strong>0 ratio: <script>document.write((4/8).toFixed(4));</script><br/>max_apery 10 min_diag 0  (e-2)*max_a 0 - e*min_diag 0 = &nbsp;&nbsp;0 verglichen mit (e-2)(g1-1) 0<br/>Apery [0, 10, 5] Max gap 7 double_avg 10\n\n            <form method=\"post\" action=\"/\">\n            <input id=\"numbers\" type=\"hidden\" name=\"numbers\" value=\"3 5 \">\n            <input id=\"samples\" type=\"hidden\" name=\"samples\" value=\"100\">\n            <button type=\"submit\" class=\"pure-button\">hier weitermachen</button>\n            </form>\n\n        </p></div></div>";
    assert_eq!(w.to_html("Input"), Some(expected.to_string()));
}

#[test]
fn page_html_refuses_fewer_than_two_generators() {
    let mut w = generatewilf(&[3, 5]);
    w.e = 1;
    assert_eq!(w.to_html("Input"), None);
}

#[test]
fn input_pages_one_after_the_other() {
    let one = generatewilf(&[3, 5]).to_html("Input").unwrap();
    let two = generatewilf(&[4, 6, 9]).to_html("Input").unwrap();
    let (html, ws) = input_pages(&vec![vec![3, 5], vec![4, 6, 9]]).unwrap();
    assert_eq!(html, format!("{}{}", one, two));
    assert_eq!(ws.len(), 2);
    assert_eq!(ws[0].apery, vec![0, 10, 5]);
    assert_eq!(ws[1].g1, 4);
}

#[test]
fn input_pages_refuse_a_list_generatewilf_refuses() {
    assert!(input_pages(&vec![vec![3, 5], vec![3, 6]]).is_none());
    let (html, ws) = input_pages(&vec![]).unwrap();
    assert_eq!(html, "");
    assert!(ws.is_empty());
}
