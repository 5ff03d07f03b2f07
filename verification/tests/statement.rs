use emmet_expand::statement::Statement;

#[test]
fn should_correctly_parse_output() {
  let expected = (("html","",1),"");
  assert_eq!(expected,Statement::parse_input("html"));

  let expected = (("html","",3),"");
  assert_eq!(expected,Statement::parse_input("html*3"));

  let expected = (("html","p",1),"");
  assert_eq!(expected,Statement::parse_input("html>p"));

  let expected = (("html","",1),"p");
  assert_eq!(expected,Statement::parse_input("html+p"));

  let expected = (("html","",1),"div>p+icon");
  assert_eq!(expected,Statement::parse_input("html+div>p+icon"));

  let expected = (("html","div>p+icon",1),"");
  assert_eq!(expected,Statement::parse_input("html>div>p+icon"));

  let expected = (("html","div>p",1),"icon");
  assert_eq!(expected,Statement::parse_input("(html>div>p)+icon"));

  let expected = (("html","",1),"icon");
  assert_eq!(expected,Statement::parse_input("(html)+icon"));

  let expected = (("html","div>(p+div>p)",1),"icon");
  assert_eq!(expected,Statement::parse_input("(html>div>(p+div>p))+icon"));

  let expected = (("html.test.class","div:test:prop>(p+div>p)",3),"icon>p");
  assert_eq!(expected,Statement::parse_input("(html.test.class>div:test:prop>(p+div>p))*3+icon>p"));

  let expected = (("html","(div>p)*3",1),"");
  assert_eq!(expected,Statement::parse_input("html>(div>p)*3"));

  let expected = (("div","p",3),"");
  assert_eq!(expected,Statement::parse_input("(div>p)*3"));
}


#[test]
fn should_return_html(){
  assert_eq!("<html></html>".to_string(),Statement::new("html",0).parse())
}

#[test]
fn should_combine_tag(){
  assert_eq!("<html>\n\t<p></p>\n</html>".to_string(),Statement::new("html>p",0).parse());
  assert_eq!("<html>\n\t<p></p>\n\t<a href=${1}></a>\n</html>".to_string(),Statement::new("html>p+a",0).parse());

  let expected = "<html>\n\t<div>\n\t\t<p></p>\n\t\t<div>\n\t\t\t<p></p>\n\t\t</div>\n\t</div>\n</html>".to_string();
  assert_eq!(expected,Statement::new("html>div>p+div>p",0).parse());

  assert_eq!("<div>\n\t<p></p>\n</div>\n<p></p>".to_string(),Statement::new("(div>p)+p", 0).parse())
}

#[test]
fn can_be_only_siblings(){
  assert_eq!("<p></p>\n<div></div>".to_string(),Statement::new("p+div",0).parse());
  assert_eq!("<p></p>\n<div></div>\n<p></p>".to_string(),Statement::new("p+div+p",0).parse())
}

#[test]
fn can_handle_tag_group(){
  let expected = "<html>\n\t<div>\n\t\t<p></p>\n\t</div>\n\t<div>\n\t\t<p></p>\n\t</div>\n</html>".to_string();
  assert_eq!(expected,Statement::new("html>(div>p)+div>p",0).parse());

  let expected = "<html>\n\t<div>\n\t\t<div>\n\t\t\t<p></p>\n\t\t</div>\n\t\t<div>\n\t\t\t<p></p>\n\t\t</div>\n\t</div>\n\t<div>\n\t\t<p></p>\n\t</div>\n</html>".to_string();
  assert_eq!(expected,Statement::new("html>(div>(div>p)+div>p)+div>p",0).parse());

  let expected = "<html>\n\t<div>\n\t\t<p></p>\n\t</div>\n\t<div>\n\t\t<div>\n\t\t\t<p></p>\n\t\t</div>\n\t\t<p></p>\n\t</div>\n</html>".to_string();
  assert_eq!(expected,Statement::new("html>(div>p)+div>(div>p)+p",0).parse())
}

#[test]
fn element_can_multiply(){
  let expected = "<p></p>\n<p></p>\n<p></p>";
  assert_eq!(expected.to_string(),Statement::new("p*3",0).parse());

  let expected = "<div>\n\t<p></p>\n\t<p></p>\n\t<p></p>\n</div>";
  assert_eq!(expected.to_string(),Statement::new("div>p*3",0).parse());

  let expected = "<html>\n\t<div>\n\t\t<p></p>\n\t</div>\n\t<div>\n\t\t<p></p>\n\t</div>\n\t<div>\n\t\t<p></p>\n\t</div>\n</html>";
  assert_eq!(expected.to_string(),Statement::new("html>(div>p)*3",0).parse())
}

#[test]
fn single_element() {
  // Can be single
  let expected = "<html>\n\t<Icon/>\n</html>";
  assert_eq!(expected.to_string(),Statement::new("html>Icon/",0).parse());
  // Can't be Single if has child
  let expected = "<html>\n\t<Icon>\n\t\t<p></p>\n\t</Icon>\n</html>";
  assert_eq!(expected.to_string(),Statement::new("html>Icon/>p",0).parse())
}

#[test]
fn element_can_have_props() {
  // Classes
  let expected = "<div class=\"test echo bravo\"></div>";
  assert_eq!(expected.to_string(),Statement::new("div.test.echo.bravo",0).parse());
  // Single element Classes
  let expected = "<div class=\"test echo bravo\"/>";
  assert_eq!(expected.to_string(),Statement::new("div.test.echo.bravo/",0).parse());
  // Props
  let expected = "<Table header={title} name=\"my-table\"></Table>";
  assert_eq!(expected.to_string(),Statement::new("Table:header={title}:name=my-table",0).parse());
  // Single Element props
  let expected = "<img src={image} alt=\"my own image\"/>";
  assert_eq!(expected.to_string(),Statement::new("img:src={image}:alt=my own image/",0).parse());
  // Props with dot
  let expected = "<Table header={table.title} name=\"my-table\"></Table>";
  assert_eq!(expected.to_string(),Statement::new("Table:header={table.title}:name=my-table",0).parse());
  // Props is function
  let expected = "<Table table={table.get()}></Table>";
  assert_eq!(expected.to_string(),Statement::new("Table:table={table.get()}",0).parse());
  // Destructured
  let expected = "<Table {...props}></Table>";
  assert_eq!(expected.to_string(),Statement::new("Table:{...props}",0).parse());
  // Text
  let expected = "<div>My test text is awesome</div>";
  assert_eq!(expected.to_string(),Statement::new("div<My test text is awesome",0).parse());
  // All
  let expected = "<div class=\"test\" data={myData}>My test text is awesome</div>";
  assert_eq!(expected.to_string(),Statement::new("div.test:data={myData}<My test text is awesome",0).parse());
}

#[test]
fn should_handle_complex_query(){
  let expected = "<div>\n\t<div>\n\t\t<div>\n\t\t\t<p></p>\n\t\t</div>\n\t\t<p></p>\n\t</div>\n\t<p></p>\n</div>";

  assert_eq!(expected.to_string(),Statement::new("div>(div>(div>p)+p)+p",0).parse());

  let expected = "<div class=\"fixed bottom-0 left-0 right-0 top-0 z-20 flex animate-appear flex-col items-center justify-center bg-black/70 backdrop-blur-md\" onClick$={onHide$}>\n\t<div class=\"flex flex-col items-center justify-center p-20\">\n\t\t<div class=\"delay animate-appear opacity-0\">\n\t\t\t<Logo class=\"size-40\" fill=\"white\"/>\n\t\t</div>\n\t\t<div>\n\t\t\t<Form class=\"mx-2 flex animate-slideB flex-col items-center gap-2 rounded-lg bg-surface p-5\" action={login}>\n\t\t\t\t<div class=\"flex items-center gap-4\">\n\t\t\t\t\t<p class=\"text-3xl font-medium\">Connexion</p>\n\t\t\t\t\t<Icon icon=\"lock\"/>\n\t\t\t\t</div>\n\t\t\t\t<div class=\"flex flex-col gap-2 self-stretch px-3\">\n\t\t\t\t\t<Textfield label=\"Email\" type=\"email\" required name=\"email\" placeholder=\"j.dupont@example.com\" icon=\"atSign\"/>\n\t\t\t\t\t<Textfield label=\"Password\" type=\"password\" required name=\"password\" placeholder=\"Votre mot de passe\" icon=\"lock\"/>\n\t\t\t\t</div>\n\t\t\t\t<div class=\"flex flex-col gap-2\">\n\t\t\t\t\t<Button color=\"current\" type=\"submit\">Connexion</Button>\n\t\t\t\t\t<Link href=\"#\" class=\"text-secondary transition-colors\">Mot de passe oublié ?</Link>\n\t\t\t\t</div>\n\t\t\t</Form>\n\t\t</div>\n\t</div>\n</div>";
  assert_eq!(expected.to_string(),Statement::new("div.fixed.bottom-0.left-0.right-0.top-0.z-20.flex.animate-appear.flex-col.items-center.justify-center.bg-black/70.backdrop-blur-md:onClick$={onHide$}>div.flex.flex-col.items-center.justify-center.p-20>(div.delay.animate-appear.opacity-0>Logo.size-40:fill=white/)+div>Form.mx-2.flex.animate-slideB.flex-col.items-center.gap-2.rounded-lg.bg-surface.p-5:action={login}>(div.flex.items-center.gap-4>p.text-3xl.font-medium<Connexion+Icon:icon=lock/)+(div.flex.flex-col.gap-2.self-stretch.px-3>Textfield:label=Email:type=email:required;:name=email:placeholder=j.dupont@example.com:icon=atSign/+Textfield:label=Password:type=password:required;:name=password:placeholder=Votre mot de passe:icon=lock/)+div.flex.flex-col.gap-2>Button:color=current:type=submit<Connexion+Link:href=#.text-secondary.transition-colors<Mot de passe oublié ?",0).parse())
}

#[test]
fn should_handle_snippet(){
  let expected = "<a href=${1}></a>";
  assert_eq!(expected.to_string(),Statement::new("a",0).parse());

  let expected = "<>\n\t<label for=${1}></label>\n\t<input type=\"checkbox\" name=${1} id=${1}/>\n</>";
  assert_eq!(expected.to_string(),Statement::new("e>label+input:c",0).parse());
  assert_eq!(expected.to_string(),Statement::new(">label+input:c",0).parse());

  let expected = "<div class=\"foo bar\"></div>";
  assert_eq!(expected.to_string(),Statement::new(".foo.bar",0).parse());
}
